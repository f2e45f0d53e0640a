//! Paths as the archive stores them: UTF-8 text, read with the Unix rules of
//! `std::path` (components separated by `/`, a leading `/` for the root,
//! empty and interior `.` components ignored, a leading `.` kept).
//! Equality, order, prefixes, parents and extensions go by components.
use vstd::prelude::*;
use vstd::utf8::{
    encode_utf8, encode_utf8_valid_utf8, is_char_boundary, is_char_boundary_iff_not_is_continuation_byte,
    encode_scalar, is_char_boundary_start_end_of_seq, length_of_first_scalar, pop_first_scalar, valid_utf8,
    valid_utf8_split,
};
use crate::rzx_core::text::bytes_eq;

verus! {

broadcast use vstd::seq_lib::group_seq_properties;

/// Component kinds, in the order in which `std::path` compares them.
pub const ROOT_DIR: u8 = 0;
pub const CUR_DIR: u8 = 1;
pub const PARENT_DIR: u8 = 2;
pub const NORMAL: u8 = 3;

/// The byte strings between `/` separators, in order (a string without
/// separators is one piece).
pub open spec fn split_slash(b: Seq<u8>) -> Seq<Seq<u8>>
    decreases b.len(),
{
    if b.len() == 0 {
        seq![Seq::<u8>::empty()]
    } else {
        let rest = split_slash(b.drop_last());
        if b.last() == 47u8 {
            rest.push(Seq::<u8>::empty())
        } else {
            rest.update(rest.len() - 1, rest.last().push(b.last()))
        }
    }
}

/// The component that a piece between separators stands for, if any.
pub open spec fn piece_component(s: Seq<u8>) -> Option<(u8, Seq<u8>)> {
    if s.len() == 0 || s == seq![46u8] {
        None
    } else if s == seq![46u8, 46u8] {
        Some((PARENT_DIR, Seq::<u8>::empty()))
    } else {
        Some((NORMAL, s))
    }
}

pub open spec fn pieces_components(pieces: Seq<Seq<u8>>) -> Seq<(u8, Seq<u8>)>
    decreases pieces.len(),
{
    if pieces.len() == 0 {
        Seq::empty()
    } else {
        let rest = pieces_components(pieces.drop_last());
        match piece_component(pieces.last()) {
            None => rest,
            Some(c) => rest.push(c),
        }
    }
}

pub open spec fn has_root(b: Seq<u8>) -> bool {
    b.len() > 0 && b[0] == 47u8
}

/// A relative path that starts with the `.` component.
pub open spec fn starts_with_cur_dir(b: Seq<u8>) -> bool {
    !has_root(b) && b.len() > 0 && b[0] == 46u8 && (b.len() == 1 || b[1] == 47u8)
}

/// The components of a path given by its bytes: `(kind, name)` pairs,
/// with an empty name for all but normal components.
pub open spec fn components(b: Seq<u8>) -> Seq<(u8, Seq<u8>)> {
    let root: Seq<(u8, Seq<u8>)> = if has_root(b) {
        seq![(ROOT_DIR, Seq::<u8>::empty())]
    } else {
        Seq::empty()
    };
    let cur: Seq<(u8, Seq<u8>)> = if starts_with_cur_dir(b) {
        seq![(CUR_DIR, Seq::<u8>::empty())]
    } else {
        Seq::empty()
    };
    root + cur + pieces_components(split_slash(b))
}

proof fn lemma_split_no_slash(b: Seq<u8>)
    ensures
        forall|i: int| 0 <= i < split_slash(b).len() ==> !(#[trigger] split_slash(b)[i]).contains(47u8),
        split_slash(b).len() >= 1,
    decreases b.len(),
{
    if b.len() > 0 {
        let rest = split_slash(b.drop_last());
        lemma_split_no_slash(b.drop_last());
        let r = split_slash(b);
        if b.last() != 47u8 {
            let l = rest.last().push(b.last());
            assert forall|k: int| 0 <= k < l.len() implies l[k] != 47u8 by {
                if k < rest.last().len() {
                    assert(rest[rest.len() - 1][k] == l[k]);
                    if l[k] == 47u8 {
                        assert(rest[rest.len() - 1].contains(47u8));
                    }
                }
            }
            assert forall|i: int| 0 <= i < r.len() implies !(#[trigger] r[i]).contains(47u8) by {
                if i < rest.len() - 1 {
                    assert(r[i] == rest[i]);
                } else {
                    assert(r[i] == l);
                }
            }
        } else {
            assert forall|i: int| 0 <= i < r.len() implies !(#[trigger] r[i]).contains(47u8) by {
                if i < rest.len() {
                    assert(r[i] == rest[i]);
                } else {
                    assert(r[i] =~= Seq::<u8>::empty());
                }
            }
        }
    }
}

/// A component that stands for a piece between separators.
pub open spec fn piece_shaped(c: (u8, Seq<u8>)) -> bool {
    ||| c.0 == PARENT_DIR && c.1.len() == 0
    ||| c.0 == NORMAL && c.1.len() > 0 && !c.1.contains(47u8) && c.1 != seq![46u8] && c.1 != seq![46u8, 46u8]
}

proof fn lemma_pieces_shaped(pieces: Seq<Seq<u8>>)
    requires
        forall|i: int| 0 <= i < pieces.len() ==> !(#[trigger] pieces[i]).contains(47u8),
    ensures
        forall|i: int| 0 <= i < pieces_components(pieces).len() ==> piece_shaped(#[trigger] pieces_components(pieces)[i]),
    decreases pieces.len(),
{
    if pieces.len() > 0 {
        let d = pieces.drop_last();
        assert forall|i: int| 0 <= i < d.len() implies !(#[trigger] d[i]).contains(47u8) by {
            assert(d[i] == pieces[i]);
        }
        lemma_pieces_shaped(d);
        assert(pieces.last() == pieces[pieces.len() - 1]);
        let r = pieces_components(pieces);
        let rest = pieces_components(d);
        assert forall|i: int| 0 <= i < r.len() implies piece_shaped(#[trigger] r[i]) by {
            if i < rest.len() {
                assert(r[i] == rest[i]);
            }
        }
    }
}

/// The components of a path: the root, only first and only for a path that
/// starts with `/`; the current directory, only first and only for a
/// relative path that starts with `.`; then a parent-directory component
/// for each `..` and a normal component for every other non-empty name
/// between separators, which holds no `/` and is neither `.` nor `..`.
pub proof fn lemma_components_shape(b: Seq<u8>)
    ensures
        ({
            let c = components(b);
            &&& forall|i: int| 0 <= i < c.len() && (#[trigger] c[i]).0 == ROOT_DIR ==> i == 0 && has_root(b)
            &&& forall|i: int| 0 <= i < c.len() && (#[trigger] c[i]).0 == CUR_DIR ==> i == 0 && starts_with_cur_dir(b)
            &&& forall|i: int|
                0 <= i < c.len() && (#[trigger] c[i]).0 != ROOT_DIR && c[i].0 != CUR_DIR ==> piece_shaped(c[i])
            &&& has_root(b) ==> c.len() > 0 && c[0] == (ROOT_DIR, Seq::<u8>::empty())
            &&& starts_with_cur_dir(b) ==> c.len() > 0 && c[0] == (CUR_DIR, Seq::<u8>::empty())
        }),
{
    lemma_split_no_slash(b);
    lemma_pieces_shaped(split_slash(b));
    let c = components(b);
    let root: Seq<(u8, Seq<u8>)> = if has_root(b) {
        seq![(ROOT_DIR, Seq::<u8>::empty())]
    } else {
        Seq::empty()
    };
    let cur: Seq<(u8, Seq<u8>)> = if starts_with_cur_dir(b) {
        seq![(CUR_DIR, Seq::<u8>::empty())]
    } else {
        Seq::empty()
    };
    let pcs = pieces_components(split_slash(b));
    assert(c == root + cur + pcs);
    assert(!(has_root(b) && starts_with_cur_dir(b)));
    let pre = root + cur;
    assert(pre.len() <= 1);
    assert forall|i: int| 0 <= i < c.len() implies (pre.len() <= i ==> c[i] == pcs[i - pre.len()]) && (i
        < pre.len() ==> c[i] == pre[i]) by {}
}

/// Lexicographic comparison of byte strings: -1, 0 or 1.
pub open spec fn lex_ord(a: Seq<u8>, b: Seq<u8>) -> int
    decreases a.len(),
{
    if a.len() == 0 && b.len() == 0 {
        0
    } else if a.len() == 0 {
        -1
    } else if b.len() == 0 {
        1
    } else if a[0] < b[0] {
        -1
    } else if a[0] > b[0] {
        1
    } else {
        lex_ord(a.drop_first(), b.drop_first())
    }
}

pub open spec fn comp_ord(x: (u8, Seq<u8>), y: (u8, Seq<u8>)) -> int {
    if x.0 < y.0 {
        -1
    } else if x.0 > y.0 {
        1
    } else {
        lex_ord(x.1, y.1)
    }
}

/// Lexicographic comparison of component sequences: -1, 0 or 1.
pub open spec fn comps_ord(a: Seq<(u8, Seq<u8>)>, b: Seq<(u8, Seq<u8>)>) -> int
    decreases a.len(),
{
    if a.len() == 0 && b.len() == 0 {
        0
    } else if a.len() == 0 {
        -1
    } else if b.len() == 0 {
        1
    } else if comp_ord(a[0], b[0]) != 0 {
        comp_ord(a[0], b[0])
    } else {
        comps_ord(a.drop_first(), b.drop_first())
    }
}

/// How two paths compare, by components.
pub open spec fn path_order(a: Seq<u8>, b: Seq<u8>) -> int {
    comps_ord(components(a), components(b))
}

/// Whether two paths are equal, by components.
pub open spec fn path_same(a: Seq<u8>, b: Seq<u8>) -> bool {
    components(a) == components(b)
}

// ------------------------------------------------------------ order lemmas

/// Byte strings compare at their first difference: when they agree on the
/// first `k` bytes and differ at byte `k`, the smaller byte comes first;
/// when one is a proper beginning of the other, the shorter comes first.
pub proof fn lemma_lex_ord_first_difference(a: Seq<u8>, b: Seq<u8>, k: int)
    requires
        0 <= k <= a.len(),
        k <= b.len(),
        a.take(k) == b.take(k),
    ensures
        k < a.len() && k < b.len() && a[k] < b[k] ==> lex_ord(a, b) == -1,
        k < a.len() && k < b.len() && a[k] > b[k] ==> lex_ord(a, b) == 1,
        k == a.len() && k < b.len() ==> lex_ord(a, b) == -1,
        k == b.len() && k < a.len() ==> lex_ord(a, b) == 1,
    decreases k,
{
    if k > 0 {
        assert(a[0] == a.take(k)[0] && b[0] == b.take(k)[0]);
        assert(a.drop_first().take(k - 1) =~= a.take(k).drop_first());
        assert(b.drop_first().take(k - 1) =~= b.take(k).drop_first());
        lemma_lex_ord_first_difference(a.drop_first(), b.drop_first(), k - 1);
    }
}

/// Component sequences compare at their first differing component; a
/// proper beginning of a sequence comes before it (so a directory's path
/// comes before the paths inside it).
pub proof fn lemma_comps_ord_first_difference(a: Seq<(u8, Seq<u8>)>, b: Seq<(u8, Seq<u8>)>, k: int)
    requires
        0 <= k <= a.len(),
        k <= b.len(),
        a.take(k) == b.take(k),
    ensures
        k < a.len() && k < b.len() && comp_ord(a[k], b[k]) != 0 ==> comps_ord(a, b) == comp_ord(a[k], b[k]),
        k == a.len() && k < b.len() ==> comps_ord(a, b) == -1,
        k == b.len() && k < a.len() ==> comps_ord(a, b) == 1,
    decreases k,
{
    if k > 0 {
        assert(a[0] == a.take(k)[0] && b[0] == b.take(k)[0]);
        lemma_lex_ord_props(a[0].1, b[0].1);
        assert(comp_ord(a[0], b[0]) == 0);
        assert(a.drop_first().take(k - 1) =~= a.take(k).drop_first());
        assert(b.drop_first().take(k - 1) =~= b.take(k).drop_first());
        lemma_comps_ord_first_difference(a.drop_first(), b.drop_first(), k - 1);
    }
}

/// Byte-string order is antisymmetric and equal only for equal strings.
pub proof fn lemma_lex_ord_props(a: Seq<u8>, b: Seq<u8>)
    ensures
        -1 <= lex_ord(a, b) <= 1,
        lex_ord(a, b) == -lex_ord(b, a),
        (lex_ord(a, b) == 0) <==> (a == b),
    decreases a.len(),
{
    if a.len() > 0 && b.len() > 0 && a[0] == b[0] {
        lemma_lex_ord_props(a.drop_first(), b.drop_first());
        if a.drop_first() == b.drop_first() {
            assert(a =~= seq![a[0]] + a.drop_first());
            assert(b =~= seq![b[0]] + b.drop_first());
        }
    }
    if a == b && a.len() > 0 {
        lemma_lex_ord_props(a.drop_first(), b.drop_first());
    }
}

/// Byte-string order is transitive.
pub proof fn lemma_lex_ord_trans(a: Seq<u8>, b: Seq<u8>, c: Seq<u8>)
    requires
        lex_ord(a, b) <= 0,
        lex_ord(b, c) <= 0,
    ensures
        lex_ord(a, c) <= 0,
    decreases a.len(),
{
    lemma_lex_ord_props(a, b);
    lemma_lex_ord_props(b, c);
    if a.len() > 0 && b.len() > 0 && c.len() > 0 && a[0] == b[0] && b[0] == c[0] {
        lemma_lex_ord_trans(a.drop_first(), b.drop_first(), c.drop_first());
    }
}

/// Component order is antisymmetric and equal only for equal components.
pub proof fn lemma_comp_ord_props(x: (u8, Seq<u8>), y: (u8, Seq<u8>))
    ensures
        -1 <= comp_ord(x, y) <= 1,
        comp_ord(x, y) == -comp_ord(y, x),
        (comp_ord(x, y) == 0) <==> (x == y),
{
    lemma_lex_ord_props(x.1, y.1);
}

/// Component order is transitive.
pub proof fn lemma_comp_ord_trans(x: (u8, Seq<u8>), y: (u8, Seq<u8>), z: (u8, Seq<u8>))
    requires
        comp_ord(x, y) <= 0,
        comp_ord(y, z) <= 0,
    ensures
        comp_ord(x, z) <= 0,
        comp_ord(x, y) < 0 || comp_ord(y, z) < 0 ==> comp_ord(x, z) < 0,
{
    lemma_comp_ord_props(x, y);
    lemma_comp_ord_props(y, z);
    lemma_comp_ord_props(x, z);
    if x.0 == y.0 && y.0 == z.0 {
        lemma_lex_ord_trans(x.1, y.1, z.1);
    }
}

/// Component-sequence order is antisymmetric and equal only for equal sequences.
pub proof fn lemma_comps_ord_props(a: Seq<(u8, Seq<u8>)>, b: Seq<(u8, Seq<u8>)>)
    ensures
        -1 <= comps_ord(a, b) <= 1,
        comps_ord(a, b) == -comps_ord(b, a),
        (comps_ord(a, b) == 0) <==> (a == b),
    decreases a.len(),
{
    if a.len() > 0 && b.len() > 0 {
        lemma_comp_ord_props(a[0], b[0]);
        lemma_comps_ord_props(a.drop_first(), b.drop_first());
        if a.drop_first() == b.drop_first() && a[0] == b[0] {
            assert(a =~= seq![a[0]] + a.drop_first());
            assert(b =~= seq![b[0]] + b.drop_first());
        }
    }
}

/// Component-sequence order is transitive.
pub proof fn lemma_comps_ord_trans(
    a: Seq<(u8, Seq<u8>)>,
    b: Seq<(u8, Seq<u8>)>,
    c: Seq<(u8, Seq<u8>)>,
)
    requires
        comps_ord(a, b) <= 0,
        comps_ord(b, c) <= 0,
    ensures
        comps_ord(a, c) <= 0,
    decreases a.len(),
{
    lemma_comps_ord_props(a, b);
    lemma_comps_ord_props(b, c);
    lemma_comps_ord_props(a, c);
    if a.len() > 0 && b.len() > 0 && c.len() > 0 {
        lemma_comp_ord_props(a[0], b[0]);
        lemma_comp_ord_props(b[0], c[0]);
        lemma_comp_ord_props(a[0], c[0]);
        if comp_ord(a[0], b[0]) == 0 && comp_ord(b[0], c[0]) == 0 {
            lemma_comps_ord_trans(a.drop_first(), b.drop_first(), c.drop_first());
        } else {
            lemma_comp_ord_trans(a[0], b[0], c[0]);
        }
    }
}

/// The order of paths is a total order on their component sequences.
pub proof fn lemma_path_order(a: Seq<u8>, b: Seq<u8>, c: Seq<u8>)
    ensures
        path_order(a, b) == -path_order(b, a),
        (path_order(a, b) == 0) <==> path_same(a, b),
        path_order(a, b) <= 0 && path_order(b, c) <= 0 ==> path_order(a, c) <= 0,
{
    lemma_comps_ord_props(components(a), components(b));
    if path_order(a, b) <= 0 && path_order(b, c) <= 0 {
        lemma_comps_ord_trans(components(a), components(b), components(c));
    }
}

// ------------------------------------------------------------ executable

/// Splitting invariant: the pieces of a prefix.
proof fn lemma_split_step(b: Seq<u8>, i: int)
    requires
        0 <= i < b.len(),
    ensures
        split_slash(b.take(i + 1)) == (if b[i] == 47u8 {
            split_slash(b.take(i)).push(Seq::<u8>::empty())
        } else {
            let r = split_slash(b.take(i));
            r.update(r.len() - 1, r.last().push(b[i]))
        }),
{
    assert(b.take(i + 1).drop_last() =~= b.take(i));
}

proof fn lemma_split_nonempty(b: Seq<u8>)
    ensures
        split_slash(b).len() >= 1,
    decreases b.len(),
{
    if b.len() > 0 {
        lemma_split_nonempty(b.drop_last());
    }
}

/// The index after the last `/` before `i` (0 if none): the start of the
/// last piece of `b.take(i)`.
proof fn lemma_split_last(b: Seq<u8>, i: int, start: int)
    requires
        0 <= start <= i <= b.len(),
        start == 0 || b[start - 1] == 47u8,
        forall|k: int| start <= k < i ==> b[k] != 47u8,
    ensures
        split_slash(b.take(i)).last() == b.subrange(start, i),
    decreases i,
{
    lemma_split_nonempty(b.take(i));
    if i > start {
        lemma_split_last(b, i - 1, start);
        lemma_split_step(b, i - 1);
        lemma_split_nonempty(b.take(i - 1));
        assert(b.subrange(start, i - 1).push(b[i - 1]) =~= b.subrange(start, i));
    } else if i > 0 {
        lemma_split_step(b, i - 1);
    }
}

fn piece_to_component(b: &[u8], start: usize, end: usize) -> (res: Option<(u8, Vec<u8>)>)
    requires
        start <= end <= b@.len(),
    ensures
        match res {
            None => piece_component(b@.subrange(start as int, end as int)) is None,
            Some(c) => piece_component(b@.subrange(start as int, end as int)) == Some((c.0, c.1@)),
        },
{
    let ghost s = b@.subrange(start as int, end as int);
    let len = end - start;
    if len == 0 {
        return None;
    }
    if len == 1 && b[start] == 46u8 {
        assert(s =~= seq![46u8]);
        return None;
    }
    if len == 2 && b[start] == 46u8 && b[start + 1] == 46u8 {
        assert(s =~= seq![46u8, 46u8]);
        return Some((2, Vec::new()));
    }
    assert(s != seq![46u8]) by {
        if s == seq![46u8] {
            assert(s.len() == 1 && s[0] == 46u8);
        }
    }
    assert(s != seq![46u8, 46u8]) by {
        if s == seq![46u8, 46u8] {
            assert(s.len() == 2 && s[0] == 46u8 && s[1] == 46u8);
        }
    }
    let mut v: Vec<u8> = Vec::new();
    let mut k = start;
    while k < end
        invariant
            start <= k <= end <= b@.len(),
            v@ == b@.subrange(start as int, k as int),
        decreases end - k,
    {
        v.push(b[k]);
        k = k + 1;
        assert(v@ =~= b@.subrange(start as int, k as int));
    }
    Some((3, v))
}

/// The components of a path.
pub fn path_components(path: &str) -> (res: Vec<(u8, Vec<u8>)>)
    ensures
        res@.map_values(|c: (u8, Vec<u8>)| (c.0, c.1@)) == components(encode_utf8(path@)),
{
    let b = path.as_bytes();
    let ghost bs = b@;
    let mut res: Vec<(u8, Vec<u8>)> = Vec::new();
    let n = b.len();
    if n > 0 && b[0] == 47u8 {
        res.push((0, Vec::new()));
    } else if n > 0 && b[0] == 46u8 && (n == 1 || b[1] == 47u8) {
        res.push((1, Vec::new()));
    }
    let ghost prefix = res@.map_values(|c: (u8, Vec<u8>)| (c.0, c.1@));
    assert(prefix =~= (if has_root(bs) {
        seq![(ROOT_DIR, Seq::<u8>::empty())]
    } else {
        Seq::<(u8, Seq<u8>)>::empty()
    }) + (if starts_with_cur_dir(bs) {
        seq![(CUR_DIR, Seq::<u8>::empty())]
    } else {
        Seq::<(u8, Seq<u8>)>::empty()
    }));
    let mut start: usize = 0;
    let mut i: usize = 0;
    assert(bs.take(0) =~= Seq::<u8>::empty());
    while i < n
        invariant
            n == bs.len(),
            bs == b@,
            start <= i <= n,
            start == 0 || bs[start - 1] == 47u8,
            forall|k: int| start <= k < i ==> bs[k] != 47u8,
            res@.map_values(|c: (u8, Vec<u8>)| (c.0, c.1@)) == prefix + pieces_components(
                split_slash(bs.take(i as int)).drop_last(),
            ),
        decreases n - i,
    {
        proof {
            lemma_split_step(bs, i as int);
            lemma_split_last(bs, i as int, start as int);
            lemma_split_nonempty(bs.take(i as int));
        }
        if b[i] == 47u8 {
            let ghost pieces = split_slash(bs.take(i as int));
            let c = piece_to_component(b, start, i);
            let ghost before = res@.map_values(|c: (u8, Vec<u8>)| (c.0, c.1@));
            proof {
                let np = pieces.push(Seq::<u8>::empty());
                assert(np.drop_last() =~= pieces);
                assert(pieces_components(pieces) == match piece_component(pieces.last()) {
                    None => pieces_components(pieces.drop_last()),
                    Some(c) => pieces_components(pieces.drop_last()).push(c),
                });
            }
            match c {
                Some(c) => {
                    res.push(c);
                    assert(res@.map_values(|c: (u8, Vec<u8>)| (c.0, c.1@)) =~= before.push(
                        (c.0, c.1@),
                    ));
                },
                None => {},
            }
            start = i + 1;
        } else {
            proof {
                let pieces = split_slash(bs.take(i as int));
                let np = pieces.update(pieces.len() - 1, pieces.last().push(bs[i as int]));
                assert(np.drop_last() =~= pieces.drop_last());
            }
        }
        i = i + 1;
    }
    proof {
        lemma_split_last(bs, n as int, start as int);
        lemma_split_nonempty(bs);
        assert(bs.take(n as int) =~= bs);
    }
    let last = piece_to_component(b, start, n);
    let ghost before = res@.map_values(|c: (u8, Vec<u8>)| (c.0, c.1@));
    proof {
        let pieces = split_slash(bs);
        assert(pieces_components(pieces) == match piece_component(pieces.last()) {
            None => pieces_components(pieces.drop_last()),
            Some(c) => pieces_components(pieces.drop_last()).push(c),
        });
    }
    match last {
        Some(c) => {
            res.push(c);
            assert(res@.map_values(|c: (u8, Vec<u8>)| (c.0, c.1@)) =~= before.push((c.0, c.1@)));
        },
        None => {},
    }
    res
}

proof fn lemma_lex_ord_skip(a: Seq<u8>, b: Seq<u8>, i: int)
    requires
        0 <= i < a.len(),
        i < b.len(),
    ensures
        lex_ord(a.skip(i), b.skip(i)) == (if a[i] < b[i] {
            -1
        } else if a[i] > b[i] {
            1
        } else {
            lex_ord(a.skip(i + 1), b.skip(i + 1))
        }),
{
    assert(a.skip(i).drop_first() =~= a.skip(i + 1));
    assert(b.skip(i).drop_first() =~= b.skip(i + 1));
}

/// Lexicographic comparison of two byte strings.
pub fn bytes_compare(a: &[u8], b: &[u8]) -> (r: i8)
    ensures
        r == lex_ord(a@, b@),
{
    let mut i: usize = 0;
    assert(a@.skip(0) =~= a@);
    assert(b@.skip(0) =~= b@);
    while i < a.len() && i < b.len()
        invariant
            i <= a@.len(),
            i <= b@.len(),
            lex_ord(a@, b@) == lex_ord(a@.skip(i as int), b@.skip(i as int)),
        decreases a@.len() - i,
    {
        proof {
            lemma_lex_ord_skip(a@, b@, i as int);
        }
        if a[i] < b[i] {
            return -1;
        } else if a[i] > b[i] {
            return 1;
        }
        i = i + 1;
    }
    if i == a.len() && i == b.len() {
        0
    } else if i == a.len() {
        -1
    } else {
        1
    }
}

proof fn lemma_comps_ord_skip(a: Seq<(u8, Seq<u8>)>, b: Seq<(u8, Seq<u8>)>, i: int)
    requires
        0 <= i < a.len(),
        i < b.len(),
    ensures
        comps_ord(a.skip(i), b.skip(i)) == (if comp_ord(a[i], b[i]) != 0 {
            comp_ord(a[i], b[i])
        } else {
            comps_ord(a.skip(i + 1), b.skip(i + 1))
        }),
{
    assert(a.skip(i).drop_first() =~= a.skip(i + 1));
    assert(b.skip(i).drop_first() =~= b.skip(i + 1));
}

pub open spec fn comps_view(v: Seq<(u8, Vec<u8>)>) -> Seq<(u8, Seq<u8>)> {
    v.map_values(|c: (u8, Vec<u8>)| (c.0, c.1@))
}

fn components_compare(a: &Vec<(u8, Vec<u8>)>, b: &Vec<(u8, Vec<u8>)>) -> (r: i8)
    ensures
        r == comps_ord(comps_view(a@), comps_view(b@)),
{
    let ghost av = comps_view(a@);
    let ghost bv = comps_view(b@);
    let mut i: usize = 0;
    assert(av.skip(0) =~= av);
    assert(bv.skip(0) =~= bv);
    while i < a.len() && i < b.len()
        invariant
            av == comps_view(a@),
            bv == comps_view(b@),
            i <= a@.len(),
            i <= b@.len(),
            comps_ord(av, bv) == comps_ord(av.skip(i as int), bv.skip(i as int)),
        decreases a@.len() - i,
    {
        proof {
            lemma_comps_ord_skip(av, bv, i as int);
        }
        let x = &a[i];
        let y = &b[i];
        let c: i8 = if x.0 < y.0 {
            -1
        } else if x.0 > y.0 {
            1
        } else {
            bytes_compare(x.1.as_slice(), y.1.as_slice())
        };
        assert(c == comp_ord(av[i as int], bv[i as int]));
        if c != 0 {
            return c;
        }
        i = i + 1;
    }
    if i == a.len() && i == b.len() {
        0
    } else if i == a.len() {
        -1
    } else {
        1
    }
}

/// How two paths compare by components: -1, 0 or 1, as `Path::ord` orders
/// them.
pub fn path_compare(a: &str, b: &str) -> (r: i8)
    ensures
        r == path_order(encode_utf8(a@), encode_utf8(b@)),
{
    let ca = path_components(a);
    let cb = path_components(b);
    components_compare(&ca, &cb)
}

/// Whether two paths have the same components, as `Path` equality decides.
pub fn path_eq(a: &str, b: &str) -> (r: bool)
    ensures
        r == path_same(encode_utf8(a@), encode_utf8(b@)),
{
    let c = path_compare(a, b);
    proof {
        lemma_path_order(encode_utf8(a@), encode_utf8(b@), encode_utf8(b@));
    }
    c == 0
}

/// Index of the last `.` in `s`, or -1.
pub open spec fn last_dot(s: Seq<u8>) -> int
    decreases s.len(),
{
    if s.len() == 0 {
        -1
    } else if s.last() == 46u8 {
        s.len() - 1
    } else {
        last_dot(s.drop_last())
    }
}

/// The extension of a path, as `Path::extension` gives it: the bytes after
/// the last `.` of the file name, when that `.` is not its first byte.
pub open spec fn path_extension(b: Seq<u8>) -> Option<Seq<u8>> {
    let c = components(b);
    if c.len() == 0 || c.last().0 != NORMAL {
        None
    } else {
        let name = c.last().1;
        let d = last_dot(name);
        if d <= 0 {
            None
        } else {
            Some(name.skip(d + 1))
        }
    }
}

proof fn lemma_last_dot_is_last(s: Seq<u8>)
    ensures
        -1 <= last_dot(s) < s.len(),
        last_dot(s) >= 0 ==> s[last_dot(s)] == 46u8,
        forall|k: int| last_dot(s) < k < s.len() ==> s[k] != 46u8,
    decreases s.len(),
{
    if s.len() > 0 {
        lemma_last_dot_is_last(s.drop_last());
        assert forall|k: int| last_dot(s) < k < s.len() implies s[k] != 46u8 by {
            if k < s.len() - 1 {
                assert(s.drop_last()[k] == s[k]);
            }
        }
    }
}

/// A path's extension is what follows the last `.` of its file name, when
/// something comes before that `.`: it holds no `.`, and the name is a
/// non-empty stem, a `.`, and the extension; every such split of the name
/// gives that extension. A path whose name has no `.` after its first byte
/// has none.
pub proof fn lemma_extension_meaning(b: Seq<u8>, stem: Seq<u8>, ext: Seq<u8>)
    ensures
        path_extension(b) matches Some(e) ==> {
            let c = components(b);
            &&& c.len() > 0 && c.last().0 == NORMAL
            &&& !e.contains(46u8)
            &&& exists|st: Seq<u8>| st.len() > 0 && c.last().1 == st.push(46u8) + e
        },
        ({
            let c = components(b);
            c.len() > 0 && c.last().0 == NORMAL && stem.len() > 0 && !ext.contains(46u8) && c.last().1
                == stem.push(46u8) + ext
        }) ==> path_extension(b) == Some(ext),
{
    let c = components(b);
    if c.len() > 0 && c.last().0 == NORMAL {
        let name = c.last().1;
        lemma_last_dot_is_last(name);
        let d = last_dot(name);
        if d > 0 {
            let e = name.skip(d + 1);
            assert forall|k: int| 0 <= k < e.len() implies e[k] != 46u8 by {
                assert(e[k] == name[d + 1 + k]);
            }
            assert(name =~= name.take(d).push(46u8) + e);
            assert(name.take(d).len() > 0);
        }
        if stem.len() > 0 && !ext.contains(46u8) && name == stem.push(46u8) + ext {
            let i: int = stem.len() as int + 1;
            assert forall|k: int| i <= k < name.len() implies name[k] != 46u8 by {
                assert(name[k] == ext[k - i]);
            }
            lemma_last_dot(name, i);
            assert(name.take(i) =~= stem.push(46u8));
            assert(last_dot(stem.push(46u8)) == stem.len());
            assert(name.skip(i) =~= ext);
        }
    }
}

proof fn lemma_last_dot(s: Seq<u8>, i: int)
    requires
        0 <= i <= s.len(),
        forall|k: int| i <= k < s.len() ==> s[k] != 46u8,
    ensures
        last_dot(s) == last_dot(s.take(i)),
        -1 <= last_dot(s) < s.len(),
        last_dot(s) >= 0 ==> s[last_dot(s)] == 46u8,
    decreases s.len(),
{
    if s.len() > i {
        lemma_last_dot(s.drop_last(), i);
        assert(s.drop_last().take(i) =~= s.take(i));
    } else {
        assert(s.take(i) =~= s);
        if s.len() > 0 {
            lemma_last_dot(s.drop_last(), s.len() - 1);
        }
    }
}

/// The extension of a path.
pub fn extension(path: &str) -> (res: Option<Vec<u8>>)
    ensures
        match res {
            None => path_extension(encode_utf8(path@)) is None,
            Some(e) => path_extension(encode_utf8(path@)) == Some(e@),
        },
{
    let comps = path_components(path);
    let ghost cv = comps_view(comps@);
    assert(cv.len() == comps@.len());
    if comps.len() == 0 {
        return None;
    }
    let last = &comps[comps.len() - 1];
    assert(cv.last() == (last.0, last.1@));
    if last.0 != 3 {
        return None;
    }
    let name = &last.1;
    let mut i = name.len();
    while i > 0 && name[i - 1] != 46u8
        invariant
            i <= name@.len(),
            forall|k: int| i <= k < name@.len() ==> name@[k] != 46u8,
        decreases i,
    {
        i = i - 1;
    }
    proof {
        lemma_last_dot(name@, i as int);
        if i > 0 {
            assert(name@.take(i as int).last() == 46u8);
        } else {
            assert(name@.take(0) =~= Seq::<u8>::empty());
        }
    }
    if i <= 1 {
        return None;
    }
    let mut ext: Vec<u8> = Vec::new();
    let mut k = i;
    while k < name.len()
        invariant
            i <= k <= name@.len(),
            ext@ == name@.subrange(i as int, k as int),
        decreases name@.len() - k,
    {
        ext.push(name[k]);
        k = k + 1;
        assert(ext@ =~= name@.subrange(i as int, k as int));
    }
    assert(ext@ =~= name@.skip(i as int));
    Some(ext)
}

// ------------------------------------------------------- prefixes and parents

/// Whether the component sequence `a` begins `b`, as `Path::starts_with`
/// decides for the paths they come from.
pub open spec fn comps_prefix(a: Seq<(u8, Seq<u8>)>, b: Seq<(u8, Seq<u8>)>) -> bool {
    a.len() <= b.len() && b.take(a.len() as int) == a
}

/// The components of the parent of a path (`Path::parent`): all but the
/// last; no parent for a path without components or one that ends in the
/// root.
pub open spec fn parent_components(b: Seq<u8>) -> Option<Seq<(u8, Seq<u8>)>> {
    let c = components(b);
    if c.len() == 0 || c.last().0 == ROOT_DIR {
        None
    } else {
        Some(c.drop_last())
    }
}

proof fn lemma_pieces_single(piece: Seq<u8>)
    ensures
        pieces_components(seq![piece]) == match piece_component(piece) {
            None => Seq::<(u8, Seq<u8>)>::empty(),
            Some(c) => seq![c],
        },
{
    assert(seq![piece].drop_last() =~= Seq::<Seq<u8>>::empty());
    assert(seq![piece].last() == piece);
    assert(pieces_components(Seq::<Seq<u8>>::empty()) == Seq::<(u8, Seq<u8>)>::empty());
    match piece_component(piece) {
        None => {},
        Some(c) => {
            assert(Seq::<(u8, Seq<u8>)>::empty().push(c) =~= seq![c]);
        },
    }
}

/// The empty path has no components.
proof fn lemma_components_empty()
    ensures
        split_slash(Seq::<u8>::empty()) == seq![Seq::<u8>::empty()],
        pieces_components(split_slash(Seq::<u8>::empty())) == Seq::<(u8, Seq<u8>)>::empty(),
        components(Seq::<u8>::empty()) == Seq::<(u8, Seq<u8>)>::empty(),
{
    lemma_pieces_single(Seq::<u8>::empty());
    assert(components(Seq::<u8>::empty()) =~= Seq::<(u8, Seq<u8>)>::empty());
}

proof fn lemma_split_concat(x: Seq<u8>, y: Seq<u8>)
    ensures
        split_slash(x + seq![47u8] + y) == split_slash(x) + split_slash(y),
    decreases y.len(),
{
    let z = x + seq![47u8] + y;
    if y.len() == 0 {
        assert(z.drop_last() =~= x);
        assert(split_slash(x).push(Seq::<u8>::empty()) =~= split_slash(x) + seq![Seq::<u8>::empty()]);
    } else {
        lemma_split_concat(x, y.drop_last());
        assert(z.drop_last() =~= x + seq![47u8] + y.drop_last());
        assert(z.last() == y.last());
        let a = split_slash(x);
        let r = split_slash(y.drop_last());
        lemma_split_nonempty(y.drop_last());
        if y.last() == 47u8 {
            assert((a + r).push(Seq::<u8>::empty()) =~= a + r.push(Seq::<u8>::empty()));
        } else {
            assert((a + r).update((a + r).len() - 1, (a + r).last().push(y.last())) =~= a + r.update(
                r.len() - 1,
                r.last().push(y.last()),
            ));
        }
    }
}

proof fn lemma_pieces_concat(a: Seq<Seq<u8>>, b: Seq<Seq<u8>>)
    ensures
        pieces_components(a + b) == pieces_components(a) + pieces_components(b),
    decreases b.len(),
{
    if b.len() == 0 {
        assert(a + b =~= a);
        assert(pieces_components(a) + pieces_components(b) =~= pieces_components(a));
    } else {
        lemma_pieces_concat(a, b.drop_last());
        assert((a + b).drop_last() =~= a + b.drop_last());
        assert((a + b).last() == b.last());
        let pa = pieces_components(a);
        let pb = pieces_components(b.drop_last());
        match piece_component(b.last()) {
            None => {},
            Some(c) => {
                assert((pa + pb).push(c) =~= pa + pb.push(c));
            },
        }
    }
}

proof fn lemma_split_noslash(b: Seq<u8>)
    requires
        forall|k: int| 0 <= k < b.len() ==> b[k] != 47u8,
    ensures
        split_slash(b) == seq![b],
{
    lemma_split_last(b, b.len() as int, 0);
    lemma_split_single(b);
    assert(b.take(b.len() as int) =~= b);
    assert(b.subrange(0, b.len() as int) =~= b);
}

proof fn lemma_split_single(b: Seq<u8>)
    requires
        forall|k: int| 0 <= k < b.len() ==> b[k] != 47u8,
    ensures
        split_slash(b).len() == 1,
    decreases b.len(),
{
    if b.len() > 0 {
        lemma_split_single(b.drop_last());
    }
}

/// The components of a path split at a `/` after its first byte: those of
/// the part before it, then those of the pieces after it.
proof fn lemma_components_cut(b: Seq<u8>, e: int)
    requires
        0 < e < b.len(),
        b[e] == 47u8,
    ensures
        components(b) == components(b.take(e)) + pieces_components(split_slash(b.skip(e + 1))),
{
    let x = b.take(e);
    let y = b.skip(e + 1);
    assert(b =~= x + seq![47u8] + y);
    lemma_split_concat(x, y);
    lemma_pieces_concat(split_slash(x), split_slash(y));
    assert(has_root(x) == has_root(b));
    assert(starts_with_cur_dir(x) == starts_with_cur_dir(b));
    let root: Seq<(u8, Seq<u8>)> = if has_root(b) {
        seq![(ROOT_DIR, Seq::<u8>::empty())]
    } else {
        Seq::empty()
    };
    let cur: Seq<(u8, Seq<u8>)> = if starts_with_cur_dir(b) {
        seq![(CUR_DIR, Seq::<u8>::empty())]
    } else {
        Seq::empty()
    };
    assert(root + cur + (pieces_components(split_slash(x)) + pieces_components(split_slash(y)))
        =~= root + cur + pieces_components(split_slash(x)) + pieces_components(split_slash(y)));
}

/// The components of a rooted path: the root, then those of the pieces
/// after its first `/`.
proof fn lemma_components_rooted(b: Seq<u8>)
    requires
        has_root(b),
    ensures
        components(b) == seq![(ROOT_DIR, Seq::<u8>::empty())] + pieces_components(
            split_slash(b.skip(1)),
        ),
{
    let y = b.skip(1);
    assert(b =~= Seq::<u8>::empty() + seq![47u8] + y);
    lemma_split_concat(Seq::<u8>::empty(), y);
    lemma_pieces_concat(split_slash(Seq::<u8>::empty()), split_slash(y));
    lemma_components_empty();
    assert(Seq::<(u8, Seq<u8>)>::empty() + pieces_components(split_slash(y)) =~= pieces_components(split_slash(y)));
    assert(!starts_with_cur_dir(b));
}

proof fn lemma_components_unrooted(b: Seq<u8>)
    requires
        !has_root(b),
        !starts_with_cur_dir(b),
    ensures
        components(b) == pieces_components(split_slash(b)),
{
    assert(components(b) =~= pieces_components(split_slash(b)));
}

/// Skipping a piece that gives no component keeps the components of the
/// pieces that follow.
proof fn lemma_skip_piece(b: Seq<u8>, s: int, j: int)
    requires
        0 <= s <= j < b.len(),
        b[j] == 47u8,
        forall|k: int| s <= k < j ==> b[k] != 47u8,
        piece_component(b.subrange(s, j)) is None,
    ensures
        pieces_components(split_slash(b.skip(s))) == pieces_components(split_slash(b.skip(j + 1))),
{
    let piece = b.subrange(s, j);
    let rest = b.skip(j + 1);
    assert(b.skip(s) =~= piece + seq![47u8] + rest);
    lemma_split_concat(piece, rest);
    lemma_split_noslash(piece);
    lemma_pieces_concat(seq![piece], split_slash(rest));
    lemma_pieces_single(piece);
    assert(Seq::<(u8, Seq<u8>)>::empty() + pieces_components(split_slash(rest))
        =~= pieces_components(split_slash(rest)));
}

/// The end of the first `n` components of a path: a position at a `/` or
/// at the end whose prefix has exactly those components. (A rooted path
/// has no such position for its root alone.)
#[verifier::spinoff_prover]
#[verifier::rlimit(40)]
fn comps_end(b: &[u8], n: usize) -> (e: usize)
    requires
        n <= components(b@).len(),
        !(has_root(b@) && n == 1),
    ensures
        e <= b@.len(),
        e == 0 || e == b@.len() || b@[e as int] == 47u8,
        n > 0 ==> e > 0,
        components(b@.take(e as int)) == components(b@).take(n as int),
{
    let ghost bs = b@;
    let len = b.len();
    proof {
        lemma_components_empty();
    }
    if n == 0 {
        assert(bs.take(0) =~= Seq::<u8>::empty());
        return 0;
    }
    if len == 0 {
        assert(bs =~= Seq::<u8>::empty());
        assert(false);
        return 0;
    }
    let rooted = len > 0 && b[0] == 47u8;
    let cur = len > 0 && b[0] == 46u8 && (len == 1 || b[1] == 47u8);
    assert(rooted == has_root(bs));
    assert(cur == starts_with_cur_dir(bs));
    if cur && n == 1 {
        proof {
            let t = bs.take(1int);
            assert(t =~= seq![46u8]);
            assert(t.drop_last() =~= Seq::<u8>::empty());
            assert(split_slash(t) =~= seq![seq![46u8]]);
            lemma_pieces_single(seq![46u8]);
            assert(pieces_components(split_slash(t)).len() == 0);
            assert(components(t) =~= seq![(CUR_DIR, Seq::<u8>::empty())]);
            if len > 1 {
                lemma_components_cut(bs, 1int);
            } else {
                assert(bs.take(1int) =~= bs);
            }
            assert(components(bs).take(1int) =~= components(t));
        }
        return 1;
    }
    let base: usize = if rooted || cur { 1 } else { 0 };
    let ghost head: Seq<(u8, Seq<u8>)> = components(bs).take(base as int);
    assert(components(bs) =~= head + pieces_components(split_slash(bs)));
    let mut count: usize = base;
    let mut start: usize = 0;
    let mut i: usize = 0;
    assert(bs.take(0) =~= Seq::<u8>::empty());
    assert(split_slash(Seq::<u8>::empty()).drop_last() =~= Seq::<Seq<u8>>::empty());
    assert(pieces_components(Seq::<Seq<u8>>::empty()) =~= Seq::<(u8, Seq<u8>)>::empty());
    while i < len
        invariant
            len == bs.len(),
            bs == b@,
            start <= i <= len,
            start == 0 || bs[start - 1] == 47u8,
            forall|k: int| start <= k < i ==> bs[k] != 47u8,
            count < n,
            n <= components(bs).len(),
            base == (if has_root(bs) || starts_with_cur_dir(bs) { 1int } else { 0int }),
            components(bs) == head + pieces_components(split_slash(bs)),
            head.len() == base,
            count == base + pieces_components(split_slash(bs.take(i as int)).drop_last()).len(),
        decreases len - i,
    {
        proof {
            lemma_split_step(bs, i as int);
            lemma_split_last(bs, i as int, start as int);
            lemma_split_nonempty(bs.take(i as int));
        }
        if b[i] == 47u8 {
            let ghost pieces = split_slash(bs.take(i as int));
            let c = piece_to_component(b, start, i);
            proof {
                let np = pieces.push(Seq::<u8>::empty());
                assert(np.drop_last() =~= pieces);
                assert(pieces_components(pieces) == match piece_component(pieces.last()) {
                    None => pieces_components(pieces.drop_last()),
                    Some(c) => pieces_components(pieces.drop_last()).push(c),
                });
            }
            if c.is_some() {
                if count + 1 == n {
                    proof {
                        assert(i > 0);
                        lemma_components_cut(bs, i as int);
                        assert(has_root(bs.take(i as int)) == has_root(bs));
                        assert(starts_with_cur_dir(bs.take(i as int)) == starts_with_cur_dir(bs));
                        assert(components(bs.take(i as int)).len() == n);
                        assert(components(bs).take(n as int) =~= components(bs.take(i as int)));
                    }
                    return i;
                }
                count = count + 1;
            }
            start = i + 1;
        } else {
            proof {
                let pieces = split_slash(bs.take(i as int));
                let np = pieces.update(pieces.len() - 1, pieces.last().push(bs[i as int]));
                assert(np.drop_last() =~= pieces.drop_last());
            }
        }
        i = i + 1;
    }
    proof {
        lemma_split_last(bs, len as int, start as int);
        lemma_split_nonempty(bs);
        assert(bs.take(len as int) =~= bs);
        let pieces = split_slash(bs);
        assert(pieces_components(pieces) == match piece_component(pieces.last()) {
            None => pieces_components(pieces.drop_last()),
            Some(c) => pieces_components(pieces.drop_last()).push(c),
        });
        assert(components(bs).take(n as int) =~= components(bs));
    }
    len
}

/// The start of what follows the first `n` components of a path: a position
/// at the end or just after a `/`, from which the rest of the path has
/// exactly the remaining components.
fn comps_start(b: &[u8], n: usize) -> (s: usize)
    requires
        1 <= n <= components(b@).len(),
    ensures
        strip_at(b@, n as nat, s as int),
{
    let ghost bs = b@;
    let len = b.len();
    let rooted = len > 0 && b[0] == 47u8;
    assert(rooted == has_root(bs));
    let e = if rooted && n == 1 {
        0
    } else {
        comps_end(b, n)
    };
    proof {
        lemma_components_empty();
    }
    if e == len {
        proof {
            assert(bs.take(len as int) =~= bs);
            assert(bs.skip(len as int) =~= Seq::<u8>::empty());
            assert(components(bs).skip(n as int) =~= Seq::<(u8, Seq<u8>)>::empty());
        }
        return len;
    }
    proof {
        if e == 0 {
            assert(rooted);
            lemma_components_rooted(bs);
            assert(components(bs).skip(1) =~= pieces_components(split_slash(bs.skip(1))));
        } else {
            lemma_components_cut(bs, e as int);
            assert(components(bs).skip(n as int) =~= pieces_components(split_slash(bs.skip(e + 1))));
        }
    }
    let ghost target = components(bs).skip(n as int);
    let mut s = e + 1;
    loop
        invariant
            len == bs.len(),
            bs == b@,
            0 < s <= len,
            bs[s - 1] == 47u8,
            pieces_components(split_slash(bs.skip(s as int))) == target,
            target == components(bs).skip(n as int),
        decreases len - s,
    {
        let mut j = s;
        while j < len && b[j] != 47u8
            invariant
                s <= j <= len,
                len == bs.len(),
                bs == b@,
                forall|k: int| s <= k < j ==> bs[k] != 47u8,
            decreases len - j,
        {
            j = j + 1;
        }
        let c = piece_to_component(b, s, j);
        if c.is_some() {
            proof {
                let rest = bs.skip(s as int);
                assert(j > s);
                assert(rest.len() > 0 && rest[0] == bs[s as int]);
                assert(!has_root(rest));
                if starts_with_cur_dir(rest) {
                    assert(bs[s as int] == 46u8);
                    if j == s + 1 {
                        assert(bs.subrange(s as int, j as int) =~= seq![46u8]);
                    } else {
                        assert(rest[1] == bs[s + 1]);
                        assert(false);
                    }
                }
                lemma_components_unrooted(rest);
                assert(components(rest) == target);
                lemma_first_piece_prefix(rest);
                let p0 = split_slash(rest)[0];
                if p0.len() < j - s {
                    assert(rest.take(p0.len() as int) == p0);
                    assert(rest[p0.len() as int] == bs[s + p0.len()]);
                } else if p0.len() > j - s {
                    assert(rest.take(p0.len() as int)[j - s] == rest[j - s]);
                    assert(rest[j - s] == bs[j as int]);
                }
                assert(p0 =~= bs.subrange(s as int, j as int));
            }
            return s;
        }
        if j == len {
            proof {
                let piece = bs.subrange(s as int, len as int);
                assert(bs.skip(s as int) =~= piece);
                lemma_split_noslash(piece);
                lemma_pieces_single(piece);
                assert(bs.skip(len as int) =~= Seq::<u8>::empty());
                lemma_components_empty();
            }
            return len;
        }
        proof {
            lemma_skip_piece(bs, s as int, j as int);
        }
        s = j + 1;
    }
}

/// The path "/" is the root alone.
pub proof fn lemma_root_path()
    ensures
        components(encode_utf8(seq!['/'])) == seq![(ROOT_DIR, Seq::<u8>::empty())],
{
    lemma_encode_slash();
    lemma_components_rooted(seq![47u8]);
    assert(seq![47u8].skip(1) =~= Seq::<u8>::empty());
    lemma_components_empty();
    assert(seq![(ROOT_DIR, Seq::<u8>::empty())] + Seq::<(u8, Seq<u8>)>::empty()
        =~= seq![(ROOT_DIR, Seq::<u8>::empty())]);
}

/// The UTF-8 encoding of "/" is the single byte 47.
proof fn lemma_encode_slash()
    ensures
        encode_utf8(seq!['/']) == seq![47u8],
{
    let c = seq!['/'];
    assert(c[0] as u32 == 47u32);
    assert((47u32 & 0x7F) as u8 == 47u8) by (bit_vector);
    assert(encode_scalar(47u32) == seq![47u8]);
    assert(c.drop_first() =~= Seq::<char>::empty());
    assert(encode_utf8(Seq::<char>::empty()) =~= Seq::<u8>::empty());
    assert(encode_utf8(c) =~= encode_scalar(47u32) + encode_utf8(Seq::<char>::empty()));
    assert(encode_utf8(c) =~= seq![47u8]);
}

/// The bytes of `path` before position `e`, which is at a `/` or the end.
fn prefix_string(path: &str, e: usize) -> (res: String)
    requires
        e <= encode_utf8(path@).len(),
        e == 0 || e == encode_utf8(path@).len() || encode_utf8(path@)[e as int] == 47u8,
    ensures
        encode_utf8(res@) == encode_utf8(path@).take(e as int),
{
    let ghost b = encode_utf8(path@);
    proof {
        encode_utf8_valid_utf8(path@);
        is_char_boundary_start_end_of_seq(b);
        if 0 < e < b.len() {
            is_char_boundary_iff_not_is_continuation_byte(b, e as int);
        }
    }
    let (p, _) = path.split_at(e);
    let res = p.to_owned();
    assert(b.subrange(0, e as int) =~= b.take(e as int));
    res
}

/// The bytes of `path` from position `s`, which is at the end or just after
/// a `/`.
fn suffix_string(path: &str, s: usize) -> (res: String)
    requires
        s <= encode_utf8(path@).len(),
        s == encode_utf8(path@).len() || (s > 0 && encode_utf8(path@)[s - 1] == 47u8),
    ensures
        encode_utf8(res@) == encode_utf8(path@).skip(s as int),
{
    let ghost b = encode_utf8(path@);
    if s == path.as_bytes().len() {
        proof {
            assert(b.skip(s as int) =~= Seq::<u8>::empty());
            assert(encode_utf8(Seq::<char>::empty()) =~= Seq::<u8>::empty());
        }
        return String::new();
    }
    proof {
        encode_utf8_valid_utf8(path@);
        is_char_boundary_iff_not_is_continuation_byte(b, s - 1);
    }
    let (_, tail) = path.split_at(s - 1);
    let ghost t = encode_utf8(tail@);
    proof {
        valid_utf8_split(b, s - 1);
        assert(t =~= b.subrange(s - 1, b.len() as int));
        assert(t[0] == 47u8);
        assert(length_of_first_scalar(t) == 1);
        assert(valid_utf8(t));
        if t.len() == 1 {
            is_char_boundary_start_end_of_seq(t);
        } else {
            assert(valid_utf8(pop_first_scalar(t)));
            assert(is_char_boundary(pop_first_scalar(t), 0));
            assert(is_char_boundary(t, 1));
        }
    }
    let (_, rest) = tail.split_at(1);
    let res = rest.to_owned();
    assert(encode_utf8(rest@) =~= b.skip(s as int));
    res
}

/// A path made of the first `n` components of `path`: the part of it that
/// ends after them, or "/" for the root alone.
pub fn path_ancestor(path: &str, n: usize) -> (res: String)
    requires
        n <= components(encode_utf8(path@)).len(),
    ensures
        components(encode_utf8(res@)) == components(encode_utf8(path@)).take(n as int),
{
    let ghost b = encode_utf8(path@);
    let bytes = path.as_bytes();
    if n == 1 && bytes.len() > 0 && bytes[0] == 47u8 {
        proof {
            assert(has_root(b));
            lemma_components_rooted(b);
            assert(components(b).take(1) =~= seq![(ROOT_DIR, Seq::<u8>::empty())]);
            reveal_strlit("/");
            assert("/"@ =~= seq!['/']);
            lemma_encode_slash();
            lemma_components_rooted(seq![47u8]);
            assert(seq![47u8].skip(1) =~= Seq::<u8>::empty());
            lemma_components_empty();
            assert(seq![(ROOT_DIR, Seq::<u8>::empty())] + Seq::<(u8, Seq<u8>)>::empty()
                =~= seq![(ROOT_DIR, Seq::<u8>::empty())]);
        }
        return "/".to_owned();
    }
    let e = comps_end(bytes, n);
    prefix_string(path, e)
}

/// The parent of a path, as `Path::parent` gives it: the path without its
/// last component; none for a path without components or one that ends in
/// the root.
pub fn path_parent(path: &str) -> (res: Option<String>)
    ensures
        match parent_components(encode_utf8(path@)) {
            None => res is None,
            Some(c) => res matches Some(p) && components(encode_utf8(p@)) == c,
        },
{
    let comps = path_components(path);
    let ghost cv = comps_view(comps@);
    assert(cv.len() == comps@.len());
    let n = comps.len();
    if n == 0 {
        return None;
    }
    assert(cv.last() == (comps[n - 1].0, comps[n - 1].1@));
    if comps[n - 1].0 == 0 {
        return None;
    }
    let p = path_ancestor(path, n - 1);
    assert(cv.take(n - 1) =~= cv.drop_last());
    Some(p)
}

/// Whether the first `n` components in `a` begin the components in `b`.
pub fn comps_begin(a: &Vec<(u8, Vec<u8>)>, n: usize, b: &Vec<(u8, Vec<u8>)>) -> (res: bool)
    requires
        n <= a@.len(),
    ensures
        res == comps_prefix(comps_view(a@).take(n as int), comps_view(b@)),
{
    let ghost va = comps_view(a@);
    let ghost vb = comps_view(b@);
    assert(va.len() == a@.len() && vb.len() == b@.len());
    if n > b.len() {
        return false;
    }
    let mut i: usize = 0;
    while i < n
        invariant
            n <= a@.len(),
            n <= b@.len(),
            va == comps_view(a@),
            vb == comps_view(b@),
            va.len() == a@.len(),
            vb.len() == b@.len(),
            i <= n,
            forall|k: int| 0 <= k < i ==> va[k] == vb[k],
        decreases n - i,
    {
        assert(va[i as int] == (a@[i as int].0, a@[i as int].1@));
        assert(vb[i as int] == (b@[i as int].0, b@[i as int].1@));
        if a[i].0 != b[i].0 || !bytes_eq(a[i].1.as_slice(), b[i].1.as_slice()) {
            assert(va[i as int] != vb[i as int]);
            assert(vb.take(n as int)[i as int] == vb[i as int]);
            assert(va.take(n as int)[i as int] == va[i as int]);
            return false;
        }
        i = i + 1;
    }
    assert(vb.take(n as int) =~= va.take(n as int));
    true
}

/// Whether `base`'s components begin `path`'s, as `Path::starts_with`
/// decides.
pub fn path_starts_with(path: &str, base: &str) -> (res: bool)
    ensures
        res == comps_prefix(components(encode_utf8(base@)), components(encode_utf8(path@))),
{
    let cp = path_components(path);
    let cb = path_components(base);
    proof {
        assert(comps_view(cp@) =~= components(encode_utf8(path@)));
        assert(comps_view(cb@) =~= components(encode_utf8(base@)));
        assert(comps_view(cb@).take(cb@.len() as int) =~= comps_view(cb@));
    }
    comps_begin(&cb, cb.len(), &cp)
}

/// What `Path::strip_prefix` leaves of `path` after `base`: the remaining
/// components, when `base`'s components begin `path`'s.
pub fn path_strip_prefix(path: &str, base: &str) -> (res: Option<String>)
    ensures
        match res {
            None => !comps_prefix(components(encode_utf8(base@)), components(encode_utf8(path@))),
            Some(r) => {
                let n = components(encode_utf8(base@)).len();
                &&& comps_prefix(components(encode_utf8(base@)), components(encode_utf8(path@)))
                &&& encode_utf8(r@) == stripped(encode_utf8(path@), n)
                &&& components(encode_utf8(r@)) == components(encode_utf8(path@)).skip(n as int)
            },
        },
{
    if !path_starts_with(path, base) {
        return None;
    }
    let cb = path_components(base);
    let ghost vb = comps_view(cb@);
    assert(vb.len() == cb@.len());
    let n = cb.len();
    if n == 0 {
        assert(components(encode_utf8(path@)).skip(0) =~= components(encode_utf8(path@)));
        return Some(path.to_owned());
    }
    let s = comps_start(path.as_bytes(), n);
    let r = suffix_string(path, s);
    proof {
        let b = encode_utf8(path@);
        let s2 = choose|s2: int| strip_at(b, n as nat, s2);
        lemma_strip_unique(b, n as nat, s as int, s2);
    }
    Some(r)
}

// ----------------------------------------------------------- strip positions

/// `s` is where what follows the first `n` components of path `b` starts:
/// the end, or just after a `/` at a piece that gives a component, with
/// exactly the remaining components from there on.
pub open spec fn strip_at(b: Seq<u8>, n: nat, s: int) -> bool {
    &&& 0 <= s <= b.len()
    &&& s == b.len() || (s > 0 && b[s - 1] == 47u8 && piece_component(split_slash(b.skip(s))[0]) is Some)
    &&& components(b.skip(s)) == components(b).skip(n as int)
}

/// The bytes that `Path::strip_prefix` leaves of path `b` after the first
/// `n` of its components: all of it for none, else from the position where
/// the remaining components start.
pub open spec fn stripped(b: Seq<u8>, n: nat) -> Seq<u8> {
    if n == 0 {
        b
    } else {
        b.skip(choose|s: int| strip_at(b, n, s))
    }
}

/// The first piece of a byte string is the part before its first `/`.
proof fn lemma_first_piece_prefix(t: Seq<u8>)
    ensures
        split_slash(t).len() >= 1,
        split_slash(t)[0].len() <= t.len(),
        t.take(split_slash(t)[0].len() as int) == split_slash(t)[0],
        split_slash(t)[0].len() == t.len() || t[split_slash(t)[0].len() as int] == 47u8,
        (split_slash(t).len() == 1) == (split_slash(t)[0].len() == t.len()),
        forall|k: int| 0 <= k < split_slash(t)[0].len() ==> split_slash(t)[0][k] != 47u8,
    decreases t.len(),
{
    lemma_split_nonempty(t);
    if t.len() == 0 {
        assert(t.take(0) =~= Seq::<u8>::empty());
    } else {
        let t2 = t.drop_last();
        let r = split_slash(t2);
        lemma_first_piece_prefix(t2);
        lemma_split_nonempty(t2);
        let p = r[0];
        if t.last() == 47u8 {
            assert(split_slash(t) == r.push(Seq::<u8>::empty()));
            assert(split_slash(t)[0] == p);
            assert(t.take(p.len() as int) =~= t2.take(p.len() as int));
            if p.len() < t2.len() {
                assert(t[p.len() as int] == t2[p.len() as int]);
            }
        } else if r.len() == 1 {
            assert(split_slash(t)[0] == p.push(t.last()));
            assert(p.len() == t2.len());
            assert(t2.take(p.len() as int) =~= t2);
            assert(t.take(p.len() + 1int) =~= p.push(t.last()));
            assert forall|k: int| 0 <= k < p.len() + 1 implies #[trigger] p.push(t.last())[k] != 47u8 by {
                if k < p.len() {
                    assert(p.push(t.last())[k] == p[k]);
                }
            }
        } else {
            assert(split_slash(t)[0] == p);
            assert(p.len() < t2.len());
            assert(t.take(p.len() as int) =~= t2.take(p.len() as int));
            assert(t[p.len() as int] == t2[p.len() as int]);
        }
    }
}

/// From a position whose first piece gives a component, the components of
/// the rest are those of its pieces, and there is at least one.
proof fn lemma_components_at_piece(t: Seq<u8>)
    requires
        piece_component(split_slash(t)[0]) is Some,
    ensures
        components(t) == pieces_components(split_slash(t)),
        pieces_components(split_slash(t)).len() >= 1,
{
    lemma_first_piece_prefix(t);
    let pieces = split_slash(t);
    let p0 = pieces[0];
    assert(p0.len() > 0);
    assert(p0[0] != 47u8);
    assert(t[0] == p0[0]) by {
        assert(t.take(p0.len() as int)[0] == t[0]);
    }
    assert(!has_root(t));
    if starts_with_cur_dir(t) {
        if p0.len() == 1 {
            assert(p0 =~= seq![46u8]);
        } else {
            assert(t.take(p0.len() as int)[1] == t[1]);
        }
    }
    lemma_components_unrooted(t);
    assert(pieces =~= seq![p0] + pieces.skip(1));
    lemma_pieces_concat(seq![p0], pieces.skip(1));
    lemma_pieces_single(p0);
}

/// There is one position at most where the rest of a path after its first
/// `n` components starts.
pub proof fn lemma_strip_unique(b: Seq<u8>, n: nat, s1: int, s2: int)
    requires
        strip_at(b, n, s1),
        strip_at(b, n, s2),
    ensures
        s1 == s2,
{
    if s1 < s2 {
        lemma_strip_order(b, n, s1, s2);
    } else if s2 < s1 {
        lemma_strip_order(b, n, s2, s1);
    }
}

/// From an earlier such position more components follow.
#[verifier::spinoff_prover]
#[verifier::rlimit(40)]
proof fn lemma_strip_order(b: Seq<u8>, n: nat, s1: int, s2: int)
    requires
        strip_at(b, n, s1),
        strip_at(b, n, s2),
        s1 < s2,
    ensures
        components(b.skip(s1)).len() > components(b.skip(s2)).len(),
{
    let t1 = b.skip(s1);
    lemma_components_at_piece(t1);
    if s2 == b.len() {
        assert(b.skip(s2) =~= Seq::<u8>::empty());
        lemma_components_empty();
    } else {
        let t2 = b.skip(s2);
        lemma_components_at_piece(t2);
        let x = b.subrange(s1, s2 - 1);
        assert(t1 =~= x + seq![47u8] + t2);
        lemma_split_concat(x, t2);
        lemma_split_nonempty(x);
        lemma_pieces_concat(split_slash(x), split_slash(t2));
        assert(split_slash(t1)[0] == split_slash(x)[0]);
        let px = split_slash(x);
        assert(px =~= seq![px[0]] + px.skip(1));
        lemma_pieces_concat(seq![px[0]], px.skip(1));
        lemma_pieces_single(px[0]);
        assert(pieces_components(px).len() >= 1);
    }
}

} // verus!
