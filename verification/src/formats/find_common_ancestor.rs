//! The deepest directory that contains every one of a list of paths.
use vstd::prelude::*;
use vstd::utf8::encode_utf8;
use crate::rzx_core::text::strings_bytes;
use crate::rzx_core::path::{
    ROOT_DIR, comps_begin, comps_prefix, comps_view, components, lemma_root_path, path_ancestor,
    path_components,
};

verus! {

/// How many of the first `n` components in `c` remain when they are cut
/// back, one parent at a time, until they begin `p`; none when the root,
/// or nothing, is reached first.
pub open spec fn shrink_to_prefix(c: Seq<(u8, Seq<u8>)>, n: nat, p: Seq<(u8, Seq<u8>)>) -> Option<
    nat,
>
    decreases n,
{
    if comps_prefix(c.take(n as int), p) {
        Some(n)
    } else if n == 0 || n > c.len() || c[n - 1].0 == ROOT_DIR {
        None
    } else {
        shrink_to_prefix(c, (n - 1) as nat, p)
    }
}

/// How many of the components in `c` the ancestor keeps after the paths in
/// `ps` have each cut it back, starting from `n`.
pub open spec fn ancestor_len(c: Seq<(u8, Seq<u8>)>, n: nat, ps: Seq<Seq<u8>>) -> Option<nat>
    decreases ps.len(),
{
    if ps.len() == 0 {
        Some(n)
    } else {
        match shrink_to_prefix(c, n, components(ps[0])) {
            None => None,
            Some(m) => ancestor_len(c, m, ps.drop_first()),
        }
    }
}

/// The components of the common ancestor of paths: the first path, cut
/// back by each later one in turn; the root where a cut reaches it.
pub open spec fn common_ancestor(paths: Seq<Seq<u8>>) -> Option<Seq<(u8, Seq<u8>)>> {
    if paths.len() == 0 {
        None
    } else {
        let c = components(paths[0]);
        match ancestor_len(c, c.len(), paths.drop_first()) {
            None => Some(seq![(ROOT_DIR, Seq::<u8>::empty())]),
            Some(n) => Some(c.take(n as int)),
        }
    }
}

/// The common ancestor of `paths`: starting from the first, it goes up one
/// parent at a time until each later path starts with it; "/" once it
/// cannot go further up. None for no paths.
pub fn find_common_ancestor(paths: &[String]) -> (res: Option<String>)
    ensures
        match common_ancestor(strings_bytes(paths@)) {
            None => res is None,
            Some(c) => res matches Some(a) && components(encode_utf8(a@)) == c,
        },
{
    let ghost ps = strings_bytes(paths@);
    if paths.len() == 0 {
        return None;
    }
    let first = paths[0].as_str();
    let c0 = path_components(first);
    let ghost cv = comps_view(c0@);
    assert(cv =~= components(ps[0]));
    let mut n = c0.len();
    let mut i: usize = 1;
    assert(ps.drop_first() =~= ps.skip(1));
    while i < paths.len()
        invariant
            ps == strings_bytes(paths@),
            ps.len() == paths@.len(),
            1 <= i <= paths@.len(),
            cv == comps_view(c0@),
            cv == components(ps[0]),
            cv.len() == c0@.len(),
            n <= c0@.len(),
            ancestor_len(cv, cv.len(), ps.drop_first()) == ancestor_len(cv, n as nat, ps.skip(i as int)),
        decreases paths@.len() - i,
    {
        let ci = path_components(paths[i].as_str());
        let ghost pv = comps_view(ci@);
        assert(pv =~= components(ps[i as int]));
        let ghost n0 = n;
        while !comps_begin(&c0, n, &ci)
            invariant
                n <= c0@.len(),
                cv == comps_view(c0@),
                cv.len() == c0@.len(),
                pv == comps_view(ci@),
                shrink_to_prefix(cv, n0 as nat, pv) == shrink_to_prefix(cv, n as nat, pv),
                ps == strings_bytes(paths@),
                ps.len() == paths@.len(),
                1 <= i < paths@.len(),
                pv == components(ps[i as int]),
                cv == components(ps[0]),
                ancestor_len(cv, cv.len(), ps.drop_first()) == ancestor_len(cv, n0 as nat, ps.skip(i as int)),
            decreases n,
        {
            if n == 0 || c0[n - 1].0 == 0 {
                proof {
                    if n > 0 {
                        assert(cv[n - 1] == (c0@[n - 1].0, c0@[n - 1].1@));
                    }
                    assert(shrink_to_prefix(cv, n as nat, pv) is None);
                    let rest = ps.skip(i as int);
                    assert(rest[0] == ps[i as int]);
                    assert(ancestor_len(cv, n0 as nat, rest) is None);
                    reveal_strlit("/");
                    assert("/"@ =~= seq!['/']);
                    lemma_root_path();
                }
                return Some("/".to_owned());
            }
            proof {
                assert(cv[n - 1] == (c0@[n - 1].0, c0@[n - 1].1@));
            }
            n = n - 1;
        }
        proof {
            let rest = ps.skip(i as int);
            assert(rest[0] == ps[i as int]);
            assert(shrink_to_prefix(cv, n as nat, pv) == Some(n as nat));
            assert(rest.drop_first() =~= ps.skip(i + 1));
        }
        i = i + 1;
    }
    proof {
        assert(ps.skip(i as int).len() == 0);
    }
    Some(path_ancestor(first, n))
}

proof fn lemma_shrink(c: Seq<(u8, Seq<u8>)>, n: nat, p: Seq<(u8, Seq<u8>)>)
    ensures
        shrink_to_prefix(c, n, p) matches Some(m) ==> m <= n && comps_prefix(c.take(m as int), p),
    decreases n,
{
    if !comps_prefix(c.take(n as int), p) && !(n == 0 || n > c.len() || c[n - 1].0 == ROOT_DIR) {
        lemma_shrink(c, (n - 1) as nat, p);
    }
}

proof fn lemma_ancestor_len(c: Seq<(u8, Seq<u8>)>, n: nat, ps: Seq<Seq<u8>>)
    requires
        n <= c.len(),
    ensures
        ancestor_len(c, n, ps) matches Some(m) ==> m <= n && forall|j: int|
            0 <= j < ps.len() ==> comps_prefix(c.take(m as int), #[trigger] components(ps[j])),
    decreases ps.len(),
{
    if ps.len() > 0 {
        lemma_shrink(c, n, components(ps[0]));
        if let Some(m1) = shrink_to_prefix(c, n, components(ps[0])) {
            lemma_ancestor_len(c, m1, ps.drop_first());
            if let Some(m) = ancestor_len(c, m1, ps.drop_first()) {
                assert forall|j: int| 0 <= j < ps.len() implies comps_prefix(
                    c.take(m as int),
                    #[trigger] components(ps[j]),
                ) by {
                    if j == 0 {
                        let p0 = components(ps[0]);
                        assert(p0.take(m as int) =~= p0.take(m1 as int).take(m as int));
                        assert(c.take(m as int) =~= c.take(m1 as int).take(m as int));
                    } else {
                        assert(ps[j] == ps.drop_first()[j - 1]);
                    }
                }
            }
        }
    }
}

/// The common ancestor begins every one of the paths, unless the search
/// reached the root of a path that some relative path does not start with
/// (then the ancestor is the root itself).
pub proof fn lemma_common_ancestor_prefix(paths: Seq<Seq<u8>>, j: int)
    requires
        0 <= j < paths.len(),
        ancestor_len(components(paths[0]), components(paths[0]).len(), paths.drop_first()) is Some,
    ensures
        common_ancestor(paths) matches Some(c) && comps_prefix(c, components(paths[j])),
{
    let c0 = components(paths[0]);
    lemma_ancestor_len(c0, c0.len(), paths.drop_first());
    let m = ancestor_len(c0, c0.len(), paths.drop_first())->0;
    if j == 0 {
        assert(c0.take(m as int).len() == m);
        assert(c0.take(m as int) =~= c0.take(m as int));
    } else {
        assert(paths[j] == paths.drop_first()[j - 1]);
    }
}

/// Cutting back stops at the longest beginning of `c`, within the first
/// `n` components, that begins `p`.
proof fn lemma_shrink_longest(c: Seq<(u8, Seq<u8>)>, n: nat, p: Seq<(u8, Seq<u8>)>, k: nat)
    requires
        k <= n,
        comps_prefix(c.take(k as int), p),
        shrink_to_prefix(c, n, p) is Some,
    ensures
        k <= shrink_to_prefix(c, n, p)->0,
    decreases n,
{
    if !comps_prefix(c.take(n as int), p) {
        lemma_shrink_longest(c, (n - 1) as nat, p, k);
    }
}

proof fn lemma_ancestor_longest(c: Seq<(u8, Seq<u8>)>, n: nat, ps: Seq<Seq<u8>>, k: nat)
    requires
        k <= n,
        forall|j: int| 0 <= j < ps.len() ==> comps_prefix(c.take(k as int), #[trigger] components(ps[j])),
        ancestor_len(c, n, ps) is Some,
    ensures
        k <= ancestor_len(c, n, ps)->0,
    decreases ps.len(),
{
    if ps.len() > 0 {
        assert(comps_prefix(c.take(k as int), components(ps[0])));
        lemma_shrink_longest(c, n, components(ps[0]), k);
        let m1 = shrink_to_prefix(c, n, components(ps[0]))->0;
        assert forall|j: int| 0 <= j < ps.drop_first().len() implies comps_prefix(
            c.take(k as int),
            #[trigger] components(ps.drop_first()[j]),
        ) by {
            assert(ps.drop_first()[j] == ps[j + 1]);
        }
        lemma_ancestor_longest(c, m1, ps.drop_first(), k);
    }
}

/// The common ancestor is the deepest one: unless the search stopped at the
/// root, no longer beginning of the first path's components begins every
/// path. (It begins every path: `lemma_common_ancestor_prefix`.)
pub proof fn lemma_common_ancestor_deepest(paths: Seq<Seq<u8>>, k: int)
    requires
        paths.len() > 0,
        ancestor_len(components(paths[0]), components(paths[0]).len(), paths.drop_first()) is Some,
        0 <= k <= components(paths[0]).len(),
        forall|j: int|
            0 <= j < paths.len() ==> comps_prefix(components(paths[0]).take(k), #[trigger] components(paths[j])),
    ensures
        common_ancestor(paths) matches Some(c) && k <= c.len(),
{
    let c0 = components(paths[0]);
    assert forall|j: int| 0 <= j < paths.drop_first().len() implies comps_prefix(
        c0.take(k),
        #[trigger] components(paths.drop_first()[j]),
    ) by {
        assert(paths.drop_first()[j] == paths[j + 1]);
    }
    lemma_ancestor_longest(c0, c0.len(), paths.drop_first(), k as nat);
    lemma_ancestor_len(c0, c0.len(), paths.drop_first());
    let m = ancestor_len(c0, c0.len(), paths.drop_first())->0;
    assert(c0.take(m as int).len() == m);
}

/// The common ancestor does not depend on the order of the paths: two
/// orderings of the same paths, neither of which stops at a root, give the
/// same ancestor.
pub proof fn lemma_common_ancestor_any_order(p1: Seq<Seq<u8>>, p2: Seq<Seq<u8>>)
    requires
        p1.len() > 0,
        p1.to_multiset() == p2.to_multiset(),
        ancestor_len(components(p1[0]), components(p1[0]).len(), p1.drop_first()) is Some,
        ancestor_len(components(p2[0]), components(p2[0]).len(), p2.drop_first()) is Some,
    ensures
        common_ancestor(p1) == common_ancestor(p2),
{
    broadcast use vstd::seq_lib::group_to_multiset_ensures;

    vstd::seq_lib::to_multiset_len(p1);
    vstd::seq_lib::to_multiset_len(p2);
    let a1 = common_ancestor(p1)->0;
    let a2 = common_ancestor(p2)->0;
    assert(common_ancestor(p1) is Some) by {
        lemma_common_ancestor_prefix(p1, 0);
    }
    assert(common_ancestor(p2) is Some) by {
        lemma_common_ancestor_prefix(p2, 0);
    }
    // every path of one list is a path of the other
    assert forall|j: int| 0 <= j < p2.len() implies comps_prefix(a1, #[trigger] components(p2[j])) by {
        assert(p2.contains(p2[j]));
        assert(p1.to_multiset().count(p2[j]) > 0);
        assert(p1.contains(p2[j]));
        let i = choose|i: int| 0 <= i < p1.len() && p1[i] == p2[j];
        lemma_common_ancestor_prefix(p1, i);
    }
    assert forall|j: int| 0 <= j < p1.len() implies comps_prefix(a2, #[trigger] components(p1[j])) by {
        assert(p1.contains(p1[j]));
        assert(p2.to_multiset().count(p1[j]) > 0);
        assert(p2.contains(p1[j]));
        let i = choose|i: int| 0 <= i < p2.len() && p2[i] == p1[j];
        lemma_common_ancestor_prefix(p2, i);
    }
    let c1 = components(p1[0]);
    let c2 = components(p2[0]);
    // a1 begins p2[0], so it is c2's beginning of its length; likewise a2
    assert(comps_prefix(a1, c2));
    assert(comps_prefix(a2, c1));
    assert(c2.take(a1.len() as int) == a1);
    assert(c1.take(a2.len() as int) == a2);
    lemma_common_ancestor_deepest(p2, a1.len() as int);
    lemma_common_ancestor_deepest(p1, a2.len() as int);
    assert(a1.len() == a2.len());
    lemma_common_ancestor_prefix(p1, 0);
    assert(comps_prefix(a1, c1));
    assert(a1 =~= a2);
}

} // verus!
