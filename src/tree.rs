use vstd::prelude::*;
use crate::types::{Descriptor, first_nul};
use crate::fsck::{window_ok, fsck_ok, sib_named, name_ok, desc_ok};
use crate::dir::{
    cut, removable, removes, grafted, moves, links, linked,
    find_sib, name_match, walk, walk_top, find_path, Walk, chain_names, is_chain, inserted, creates,
    seg_end, valid_name, fits, lemma_find_sib_match,
};

verus! {

/// The window `[lo, hi)` is tiled by subtrees that each fit inside it: the
/// pre-order layout's child counts are consistent.
pub open spec fn wf_window(d: Seq<Descriptor>, lo: int, hi: int) -> bool
    decreases hi - lo,
{
    if lo == hi {
        0 <= lo <= d.len()
    } else if lo < 0 || hi > d.len() || lo > hi || d[lo].span() > hi - lo {
        false
    } else {
        &&& d[lo].is_dir_spec() ==> wf_window(d, lo + 1, lo + d[lo].span())
        &&& wf_window(d, lo + d[lo].span(), hi)
    }
}

/// The whole directory is well formed.
pub open spec fn wf(d: Seq<Descriptor>) -> bool {
    wf_window(d, 0, d.len() as int)
}

/// `d2` holds the descriptors of `d` over `[lo, hi)`, or ones with the same
/// names and sizes.
pub open spec fn agree(d: Seq<Descriptor>, d2: Seq<Descriptor>, lo: int, hi: int) -> bool {
    &&& 0 <= lo <= hi <= d.len()
    &&& hi <= d2.len()
    &&& forall|t: int| lo <= t < hi ==> (#[trigger] d2[t]) == d[t]
}

/// Scanning a well-formed window that holds no match runs to its end, also
/// when the same siblings continue into a longer window.
proof fn lemma_scan_through(d: Seq<Descriptor>, d2: Seq<Descriptor>, lo: int, hi: int, hi2: int, p: Seq<u8>)
    requires
        wf_window(d, lo, hi),
        find_sib(d, lo, hi, p) is None,
        agree(d, d2, lo, hi),
        hi <= hi2 <= d2.len(),
    ensures
        find_sib(d2, lo, hi2, p) == find_sib(d2, hi, hi2, p),
    decreases hi - lo,
{
    if lo < hi {
        let s = d[lo].span();
        assert(d2[lo] == d[lo]);
        lemma_scan_through(d, d2, lo + s, hi, hi2, p);
    }
}

/// A well-formed window's first match is found again in a window that agrees
/// before it and keeps its name.
proof fn lemma_scan_found(d: Seq<Descriptor>, d2: Seq<Descriptor>, lo: int, hi: int, hi2: int, p: Seq<u8>, c: int)
    requires
        wf_window(d, lo, hi),
        find_sib(d, lo, hi, p) == Some(c),
        agree(d, d2, lo, c),
        c < hi2 <= d2.len(),
        d2[c].name == d[c].name,
    ensures
        find_sib(d2, lo, hi2, p) == Some(c),
    decreases hi - lo,
{
    lemma_find_sib_match(d, lo, hi, p);
    if lo < c {
        let s = d[lo].span();
        assert(d2[lo] == d[lo]);
        lemma_find_sib_match(d, lo + s, hi, p);
        lemma_scan_found(d, d2, lo + s, hi, hi2, p, c);
    }
}

/// What a match in a well-formed window gives: its subtree fits, and is well formed.
proof fn lemma_found_fits(d: Seq<Descriptor>, lo: int, hi: int, p: Seq<u8>)
    requires
        wf_window(d, lo, hi),
        find_sib(d, lo, hi, p) is Some,
    ensures
        ({
            let c = find_sib(d, lo, hi, p)->Some_0;
            &&& lo <= c < hi
            &&& c + d[c].span() <= hi
            &&& d[c].is_dir_spec() ==> wf_window(d, c + 1, c + d[c].span())
        }),
    decreases hi - lo,
{
    if lo < hi && name_match(d[lo].name@, p) is None {
        lemma_found_fits(d, lo + d[lo].span(), hi, p);
    }
}

/// The directories a walk passes extend those it started with, lie in its
/// window, and come before where it ends.
proof fn lemma_walk_ancestors(d: Seq<Descriptor>, lo: int, hi: int, p: Seq<u8>, anc0: Seq<int>)
    requires
        wf_window(d, lo, hi),
    ensures
        walk(d, lo, hi, p, anc0) matches Walk::Missing(at, anc, _) ==> {
            &&& lo <= at <= hi
            &&& anc.len() >= anc0.len()
            &&& anc.take(anc0.len() as int) == anc0
            &&& forall|j: int| anc0.len() <= j < anc.len() ==> lo <= #[trigger] anc[j] < at
        },
    decreases p.len(),
{
    match find_sib(d, lo, hi, p) {
        None => {
            assert(anc0.take(anc0.len() as int) =~= anc0);
        },
        Some(c) => {
            lemma_found_fits(d, lo, hi, p);
            let rest = name_match(d[c].name@, p)->Some_0;
            if rest.len() != 0 && d[c].is_dir_spec() && rest.len() < p.len() && d[c].span() <= hi - c {
                let a1 = anc0.push(c);
                lemma_walk_ancestors(d, c + 1, c + d[c].span(), rest, a1);
                match walk(d, c + 1, c + d[c].span(), rest, a1) {
                    Walk::Missing(at, anc, _) => {
                        assert(anc.take(anc0.len() as int) =~= a1.take(anc0.len() as int));
                        assert(a1.take(anc0.len() as int) =~= anc0);
                        assert(anc[anc0.len() as int] == a1.take(a1.len() as int)[anc0.len() as int]);
                    },
                    _ => {},
                }
            }
        },
    }
}

/// A name held with zero padding reads back as itself.
proof fn lemma_holds_view(x: Descriptor, n: Seq<u8>)
    requires
        x.name.holds(n),
        valid_name(n),
    ensures
        x.name@ == n,
{
    let b = x.name.bytes@;
    assert forall|i: int| 0 <= i <= n.len() implies first_nul(b, i) == n.len() by {
        lemma_first_nul_at(b, i, n);
    }
    assert(x.name@ =~= n);
}

proof fn lemma_first_nul_at(b: Seq<u8>, i: int, n: Seq<u8>)
    requires
        b.len() == 16,
        0 <= i <= n.len(),
        valid_name(n),
        b.take(n.len() as int) == n,
        forall|k: int| n.len() <= k < 16 ==> b[k] == 0,
    ensures
        first_nul(b, i) == n.len(),
    decreases n.len() - i,
{
    if i < n.len() {
        assert(b[i] == b.take(n.len() as int)[i]);
        lemma_first_nul_at(b, i + 1, n);
    } else if n.len() < 16 {
        assert(b[i] == 0);
    }
}

proof fn lemma_seg_end_of_name(p: Seq<u8>, i: int)
    requires
        0 <= i <= p.len(),
    ensures
        i <= seg_end(p, i) <= p.len(),
        seg_end(p, i) < p.len() ==> crate::dir::is_sep(p[seg_end(p, i)]),
        forall|k: int| i <= k < seg_end(p, i) ==> !crate::dir::is_sep(#[trigger] p[k]),
    decreases p.len() - i,
{
    if i < p.len() && !crate::dir::is_sep(p[i]) {
        lemma_seg_end_of_name(p, i + 1);
    }
}

/// The first name of a chain leads the path, and what follows is the rest
/// of the chain's path.
proof fn lemma_chain_match(p: Seq<u8>)
    requires
        chain_names(p) is Some,
    ensures
        ({
            let names = chain_names(p)->Some_0;
            let q = name_match(names[0], p);
            &&& names.len() >= 1
            &&& q is Some
            &&& names.len() == 1 ==> q->Some_0.len() == 0
            &&& names.len() > 1 ==> q->Some_0.len() < p.len() && chain_names(q->Some_0) == Some(names.drop_first())
        }),
{
    let n = seg_end(p, 0);
    lemma_seg_end_of_name(p, 0);
    let names = chain_names(p)->Some_0;
    assert(names[0] == p.take(n));
    assert(p.take(n).len() == n);
    if n == p.len() {
    } else if n + 1 >= p.len() {
        assert(p.skip(n + 1) =~= Seq::<u8>::empty());
    } else {
        let t = chain_names(p.skip(n + 1))->Some_0;
        assert(names.drop_first() =~= t);
    }
}

/// Following a path down a chain of nested directories that carry its
/// segments ends at the chain's last descriptor.
proof fn lemma_chain_walk(d: Seq<Descriptor>, s: int, m: int, p: Seq<u8>, anc: Seq<int>)
    requires
        chain_names(p) is Some,
        m == chain_names(p)->Some_0.len(),
        0 <= s,
        s + m <= d.len(),
        forall|j: int| 0 <= j < m ==> {
            &&& (#[trigger] d[s + j]).name@ == chain_names(p)->Some_0[j]
            &&& d[s + j].content_type == 0
            &&& d[s + j].content_size == m - 1 - j
        },
    ensures
        walk(d, s, s + m, p, anc) matches Walk::Found(i, _) && i == s + m - 1,
    decreases p.len(),
{
    lemma_chain_match(p);
    let names = chain_names(p)->Some_0;
    assert(d[s + 0].name@ == names[0]);
    assert(find_sib(d, s, s + m, p) == Some(s));
    let q = name_match(names[0], p)->Some_0;
    if m > 1 {
        let tail = names.drop_first();
        assert forall|j: int| 0 <= j < m - 1 implies {
            &&& (#[trigger] d[s + 1 + j]).name@ == tail[j]
            &&& d[s + 1 + j].content_type == 0
            &&& d[s + 1 + j].content_size == m - 1 - 1 - j
        } by {
            assert(d[s + (j + 1)].name@ == names[j + 1]);
            assert(s + (j + 1) == s + 1 + j);
        }
        lemma_chain_walk(d, s + 1, m - 1, q, anc.push(s));
    }
}

/// Where a walk that found no place ends, the new directory holds the chain
/// that creating the path adds, and following the path again reaches its end.
proof fn lemma_walk_inserted(
    d: Seq<Descriptor>,
    lo: int,
    hi: int,
    p: Seq<u8>,
    anc0: Seq<int>,
    k: int,
    d2: Seq<Descriptor>,
)
    requires
        wf_window(d, lo, hi),
        walk(d, lo, hi, p, anc0) is Missing,
        ({
            let w = walk(d, lo, hi, p, anc0);
            let names = chain_names(w->Missing_2);
            &&& names is Some
            &&& k == names->Some_0.len()
            &&& is_chain(d2.subrange(w->Missing_0, w->Missing_0 + k), names->Some_0)
            &&& d2 == inserted(d, w->Missing_0, w->Missing_1, d2.subrange(w->Missing_0, w->Missing_0 + k))
            &&& fits(d, w->Missing_1, k)
        }),
        forall|j: int| 0 <= j < anc0.len() ==> #[trigger] anc0[j] < lo,
    ensures
        walk(d2, lo, hi + k, p, anc0) matches Walk::Found(i, _) && i == walk(d, lo, hi, p, anc0)->Missing_0 + k - 1,
    decreases p.len(),
{
    let w = walk(d, lo, hi, p, anc0);
    let at = w->Missing_0;
    let anc = w->Missing_1;
    let rest = w->Missing_2;
    let names = chain_names(rest)->Some_0;
    let c = d2.subrange(at, at + k);
    lemma_walk_ancestors(d, lo, hi, p, anc0);
    lemma_chain_match(rest);
    assert(d2.len() == d.len() + k);
    assert forall|t: int| lo <= t < at && !anc.contains(t) implies #[trigger] d2[t] == d[t] by {}
    assert forall|j: int| 0 <= j < k implies {
        &&& (#[trigger] d2[at + j]).name@ == names[j]
        &&& d2[at + j].content_type == 0
        &&& d2[at + j].content_size == k - 1 - j
    } by {
        assert(d2[at + j] == c[j]);
        lemma_chain_valid(rest, j);
        lemma_holds_view(c[j], names[j]);
    }
    match find_sib(d, lo, hi, p) {
        None => {
            assert(at == hi && anc == anc0 && rest == p);
            assert(agree(d, d2, lo, hi)) by {
                assert forall|t: int| lo <= t < hi implies (#[trigger] d2[t]) == d[t] by {
                    if anc.contains(t) {
                        let j = choose|j: int| 0 <= j < anc.len() && anc[j] == t;
                        assert(anc0[j] < lo);
                    }
                }
            }
            lemma_scan_through(d, d2, lo, hi, hi + k, p);
            lemma_chain_walk(d2, hi, k, p, anc0);
            assert(d2[at + 0].name@ == names[0]);
            assert(find_sib(d2, hi, hi + k, p) == Some(hi));
            assert(walk(d2, lo, hi + k, p, anc0) == walk(d2, hi, hi + k, p, anc0));
        },
        Some(cc) => {
            lemma_found_fits(d, lo, hi, p);
            let rest1 = name_match(d[cc].name@, p)->Some_0;
            let s = d[cc].span();
            let a1 = anc0.push(cc);
            assert(rest1.len() != 0 && d[cc].is_dir_spec() && rest1.len() < p.len() && s <= hi - cc);
            assert(w == walk(d, cc + 1, cc + s, rest1, a1));
            lemma_walk_ancestors(d, cc + 1, cc + s, rest1, a1);
            assert(anc[anc0.len() as int] == cc) by {
                assert(anc.take(a1.len() as int) == a1);
                assert(anc.take(a1.len() as int)[anc0.len() as int] == a1[anc0.len() as int]);
            }
            assert(agree(d, d2, lo, cc)) by {
                assert forall|t: int| lo <= t < cc implies (#[trigger] d2[t]) == d[t] by {
                    if anc.contains(t) {
                        let j = choose|j: int| 0 <= j < anc.len() && anc[j] == t;
                        if j < anc0.len() {
                            assert(anc.take(anc0.len() as int)[j] == anc0[j]);
                        } else if j == anc0.len() {
                        } else {
                            assert(anc.take(a1.len() as int) == a1);
                        }
                    }
                }
            }
            assert(anc.contains(cc)) by {
                assert(anc[anc0.len() as int] == cc);
            }
            assert(d2[cc] == crate::dir::grow(d[cc], k));
            assert(d[anc[anc0.len() as int]].content_size + k <= u32::MAX);
            lemma_scan_found(d, d2, lo, hi, hi + k, p, cc);
            assert forall|j: int| 0 <= j < a1.len() implies #[trigger] a1[j] < cc + 1 by {}
            lemma_walk_inserted(d, cc + 1, cc + s, rest1, a1, k, d2);
            assert(d2[cc].span() == s + k);
        },
    }
}

proof fn lemma_chain_valid(p: Seq<u8>, j: int)
    requires
        chain_names(p) is Some,
        0 <= j < chain_names(p)->Some_0.len(),
    ensures
        valid_name(chain_names(p)->Some_0[j]),
    decreases p.len(),
{
    lemma_chain_match(p);
    if j > 0 {
        let q = name_match(chain_names(p)->Some_0[0], p)->Some_0;
        lemma_chain_valid(q, j - 1);
    }
}

/// Creating a path in a well-formed directory gives the index of the
/// descriptor that the path then names.
pub proof fn lemma_find_after_create(d: Seq<Descriptor>, p: Seq<u8>, d2: Seq<Descriptor>, i: usize)
    requires
        wf(d),
        d.len() <= usize::MAX,
        creates(d, p, d2, Ok(i)),
    ensures
        find_path(d2, p) == Some(i as int),
{
    match walk_top(d, p) {
        Walk::Found(j, _) => {
            crate::dir::lemma_walk_bounds(d, 0, d.len() as int, p, Seq::empty());
        },
        Walk::Missing(at, anc, rest) => {
            let names = chain_names(rest)->Some_0;
            let k = names.len() as int;
            crate::dir::lemma_walk_bounds(d, 0, d.len() as int, p, Seq::empty());
            crate::dir::lemma_chain_nonempty(rest);
            assert(fits(d, anc, k));
            assert(d2.len() == d.len() + k);
            lemma_walk_inserted(d, 0, d.len() as int, p, Seq::empty(), k, d2);
            assert(i as int == at + k - 1);
        },
        Walk::Blocked(_, _) => {},
    }
}

/// The same names and subtree sizes everywhere.
pub open spec fn same_shape_except(d: Seq<Descriptor>, d2: Seq<Descriptor>, i: int) -> bool {
    &&& d2.len() == d.len()
    &&& forall|t: int| 0 <= t < d.len() ==> (#[trigger] d2[t]).name == d[t].name && d2[t].span() == d[t].span()
    &&& forall|t: int| 0 <= t < d.len() && t != i ==> #[trigger] d2[t] == d[t]
}

proof fn lemma_find_sib_same_shape(d: Seq<Descriptor>, d2: Seq<Descriptor>, i: int, lo: int, hi: int, p: Seq<u8>)
    requires
        same_shape_except(d, d2, i),
    ensures
        find_sib(d2, lo, hi, p) == find_sib(d, lo, hi, p),
    decreases hi - lo,
{
    if 0 <= lo < hi <= d.len() {
        assert(d2[lo].name == d[lo].name && d2[lo].span() == d[lo].span());
        if name_match(d[lo].name@, p) is None && d[lo].span() <= hi - lo {
            lemma_find_sib_same_shape(d, d2, i, lo + d[lo].span(), hi, p);
        }
    }
}

proof fn lemma_walk_same_shape(d: Seq<Descriptor>, d2: Seq<Descriptor>, i: int, lo: int, hi: int, p: Seq<u8>, anc: Seq<int>)
    requires
        same_shape_except(d, d2, i),
        walk(d, lo, hi, p, anc) matches Walk::Found(j, _) && j == i,
        0 <= lo,
    ensures
        walk(d2, lo, hi, p, anc) == walk(d, lo, hi, p, anc),
    decreases p.len(),
{
    lemma_find_sib_same_shape(d, d2, i, lo, hi, p);
    match find_sib(d, lo, hi, p) {
        None => {},
        Some(c) => {
            lemma_find_sib_match(d, lo, hi, p);
            let rest = name_match(d[c].name@, p)->Some_0;
            if rest.len() != 0 {
                if d[c].is_dir_spec() && rest.len() < p.len() && d[c].span() <= hi - c {
                    crate::dir::lemma_walk_bounds_from(d, c + 1, c + d[c].span(), rest, anc.push(c));
                    assert(d2[c] == d[c]);
                    lemma_walk_same_shape(d, d2, i, c + 1, c + d[c].span(), rest, anc.push(c));
                }
            }
        },
    }
}

/// Overwriting the descriptor that a path names with one of the same name
/// and subtree size leaves the path naming it.
pub proof fn lemma_find_after_overwrite(d: Seq<Descriptor>, p: Seq<u8>, i: int, x: Descriptor)
    requires
        find_path(d, p) == Some(i),
        x.name == d[i].name,
        x.span() == d[i].span(),
    ensures
        find_path(d.update(i, x), p) == Some(i),
{
    crate::dir::lemma_walk_bounds(d, 0, d.len() as int, p, Seq::empty());
    lemma_walk_same_shape(d, d.update(i, x), i, 0, d.len() as int, p, Seq::empty());
}

/// Two tiled windows side by side tile their union.
proof fn lemma_wf_concat(d: Seq<Descriptor>, lo: int, m: int, hi: int)
    requires
        wf_window(d, lo, m),
        wf_window(d, m, hi),
    ensures
        wf_window(d, lo, hi),
    decreases m - lo,
{
    if lo < m {
        lemma_wf_concat(d, lo + d[lo].span(), m, hi);
    }
}

/// Whether a window is tiled depends only on the kinds and sizes in it.
proof fn lemma_wf_shift(d: Seq<Descriptor>, d2: Seq<Descriptor>, lo: int, hi: int, sh: int)
    requires
        wf_window(d, lo, hi),
        0 <= lo + sh,
        hi + sh <= d2.len(),
        forall|t: int| lo <= t < hi ==> (#[trigger] d2[t + sh]).content_type == d[t].content_type && d2[t + sh].content_size == d[t].content_size,
    ensures
        wf_window(d2, lo + sh, hi + sh),
    decreases hi - lo,
{
    if lo < hi {
        let s = d[lo].span();
        assert(d2[lo + sh].span() == s);
        if d[lo].is_dir_spec() {
            lemma_wf_shift(d, d2, lo + 1, lo + s, sh);
            assert(lo + 1 + sh == lo + sh + 1);
        }
        lemma_wf_shift(d, d2, lo + s, hi, sh);
    }
}

/// A chain of nested directories, each owning those after it, is tiled.
proof fn lemma_wf_chain(d: Seq<Descriptor>, s: int, m: int)
    requires
        0 <= s,
        s + m <= d.len(),
        0 <= m,
        forall|j: int| 0 <= j < m ==> (#[trigger] d[s + j]).content_type == 0 && d[s + j].content_size == m - 1 - j,
    ensures
        wf_window(d, s, s + m),
    decreases m,
{
    if m > 0 {
        assert(d[s + 0].content_size == m - 1);
        assert forall|j: int| 0 <= j < m - 1 implies (#[trigger] d[(s + 1) + j]).content_type == 0 && d[(s + 1) + j].content_size == (m - 1) - 1 - j by {
            assert(d[s + (j + 1)].content_size == m - 1 - (j + 1));
            assert(s + (j + 1) == (s + 1) + j);
        }
        lemma_wf_chain(d, s + 1, m - 1);
    }
}

/// A match in a tiled window splits it into tiled parts around the match.
proof fn lemma_found_splits(d: Seq<Descriptor>, lo: int, hi: int, p: Seq<u8>)
    requires
        wf_window(d, lo, hi),
        find_sib(d, lo, hi, p) is Some,
    ensures
        ({
            let c = find_sib(d, lo, hi, p)->Some_0;
            &&& wf_window(d, lo, c)
            &&& wf_window(d, c + d[c].span(), hi)
        }),
    decreases hi - lo,
{
    if lo < hi && name_match(d[lo].name@, p) is None {
        let s = d[lo].span();
        lemma_found_splits(d, lo + s, hi, p);
        let c = find_sib(d, lo, hi, p)->Some_0;
        lemma_find_sib_match(d, lo + s, hi, p);
        assert(wf_window(d, lo + s, c));
        assert(wf_window(d, lo, c));
    }
}

proof fn lemma_insert_wf(d: Seq<Descriptor>, lo: int, hi: int, p: Seq<u8>, anc0: Seq<int>, k: int, d2: Seq<Descriptor>)
    requires
        wf_window(d, lo, hi),
        walk(d, lo, hi, p, anc0) is Missing,
        ({
            let w = walk(d, lo, hi, p, anc0);
            let names = chain_names(w->Missing_2);
            &&& names is Some
            &&& k == names->Some_0.len()
            &&& is_chain(d2.subrange(w->Missing_0, w->Missing_0 + k), names->Some_0)
            &&& d2 == inserted(d, w->Missing_0, w->Missing_1, d2.subrange(w->Missing_0, w->Missing_0 + k))
            &&& fits(d, w->Missing_1, k)
        }),
        forall|j: int| 0 <= j < anc0.len() ==> #[trigger] anc0[j] < lo,
    ensures
        wf_window(d2, lo, hi + k),
    decreases p.len(),
{
    let w = walk(d, lo, hi, p, anc0);
    let at = w->Missing_0;
    let anc = w->Missing_1;
    let rest = w->Missing_2;
    let names = chain_names(rest)->Some_0;
    let c = d2.subrange(at, at + k);
    lemma_walk_ancestors(d, lo, hi, p, anc0);
    lemma_chain_match(rest);
    assert(d2.len() == d.len() + k);
    assert forall|j: int| 0 <= j < k implies (#[trigger] d2[at + j]).content_type == 0 && d2[at + j].content_size == k - 1 - j by {
        assert(d2[at + j] == c[j]);
    }
    lemma_wf_chain(d2, at, k);
    assert forall|t: int| at <= t < hi implies (#[trigger] d2[t + k]).content_type == d[t].content_type && d2[t + k].content_size == d[t].content_size by {
        assert(d2[t + k] == d[t]);
    }
    match find_sib(d, lo, hi, p) {
        None => {
            assert forall|t: int| lo <= t < hi implies (#[trigger] d2[t + 0]).content_type == d[t].content_type && d2[t + 0].content_size == d[t].content_size by {
                if anc.contains(t) {
                    let j = choose|j: int| 0 <= j < anc.len() && anc[j] == t;
                    assert(anc0[j] < lo);
                }
                assert(d2[t + 0] == d[t]);
            }
            lemma_wf_shift(d, d2, lo, hi, 0);
            lemma_wf_concat(d2, lo, hi, hi + k);
        },
        Some(cc) => {
            lemma_found_fits(d, lo, hi, p);
            lemma_found_splits(d, lo, hi, p);
            let rest1 = name_match(d[cc].name@, p)->Some_0;
            let s = d[cc].span();
            let a1 = anc0.push(cc);
            assert(w == walk(d, cc + 1, cc + s, rest1, a1));
            lemma_walk_ancestors(d, cc + 1, cc + s, rest1, a1);
            assert(anc[anc0.len() as int] == cc) by {
                assert(anc.take(a1.len() as int) == a1);
                assert(anc.take(a1.len() as int)[anc0.len() as int] == a1[anc0.len() as int]);
            }
            assert forall|t: int| lo <= t < cc implies (#[trigger] d2[t + 0]).content_type == d[t].content_type && d2[t + 0].content_size == d[t].content_size by {
                if anc.contains(t) {
                    let j = choose|j: int| 0 <= j < anc.len() && anc[j] == t;
                    if j < anc0.len() {
                        assert(anc.take(anc0.len() as int)[j] == anc0[j]);
                    } else {
                        assert(anc.take(a1.len() as int) == a1);
                    }
                }
                assert(d2[t + 0] == d[t]);
            }
            lemma_wf_shift(d, d2, lo, cc, 0);
            assert(anc.contains(cc));
            assert(d[anc[anc0.len() as int]].content_size + k <= u32::MAX);
            assert(d2[cc] == crate::dir::grow(d[cc], k));
            assert forall|j: int| 0 <= j < a1.len() implies #[trigger] a1[j] < cc + 1 by {}
            lemma_insert_wf(d, cc + 1, cc + s, rest1, a1, k, d2);
            assert(wf_window(d2, cc + s + k, cc + s + k));
            assert(wf_window(d2, cc, cc + s + k));
            lemma_wf_shift(d, d2, cc + s, hi, k);
            lemma_wf_concat(d2, cc, cc + s + k, hi + k);
            lemma_wf_concat(d2, lo, cc, hi + k);
        },
    }
}

/// Creating a path keeps a directory well formed: every directory's count
/// still covers exactly its subtree.
pub proof fn lemma_create_keeps_wf(d: Seq<Descriptor>, p: Seq<u8>, d2: Seq<Descriptor>, r: Result<usize, crate::types::ErrorKind>)
    requires
        wf(d),
        creates(d, p, d2, r),
    ensures
        wf(d2),
{
    match walk_top(d, p) {
        Walk::Missing(at, anc, rest) => {
            if r is Ok {
                let names = chain_names(rest)->Some_0;
                let k = names.len() as int;
                crate::dir::lemma_chain_nonempty(rest);
                lemma_insert_wf(d, 0, d.len() as int, p, Seq::empty(), k, d2);
                assert(d2.len() == d.len() + k);
            }
        },
        _ => {},
    }
}

/// A walk that finds its target in a tiled window: the target's subtree fits,
/// and the directories passed extend those it started with, lie before the
/// target and contain it.
proof fn lemma_walk_found(d: Seq<Descriptor>, lo: int, hi: int, p: Seq<u8>, anc0: Seq<int>)
    requires
        wf_window(d, lo, hi),
    ensures
        walk(d, lo, hi, p, anc0) matches Walk::Found(i, anc) ==> {
            &&& lo <= i
            &&& i + d[i].span() <= hi
            &&& anc.len() >= anc0.len()
            &&& anc.take(anc0.len() as int) == anc0
            &&& forall|j: int| anc0.len() <= j < anc.len() ==> lo <= #[trigger] anc[j] < i
        },
    decreases p.len(),
{
    match find_sib(d, lo, hi, p) {
        None => {},
        Some(c) => {
            lemma_found_fits(d, lo, hi, p);
            let rest = name_match(d[c].name@, p)->Some_0;
            if rest.len() == 0 {
                assert(anc0.take(anc0.len() as int) =~= anc0);
            } else if d[c].is_dir_spec() && rest.len() < p.len() && d[c].span() <= hi - c {
                let a1 = anc0.push(c);
                lemma_walk_found(d, c + 1, c + d[c].span(), rest, a1);
                match walk(d, c + 1, c + d[c].span(), rest, a1) {
                    Walk::Found(i, anc) => {
                        assert(anc.take(anc0.len() as int) =~= a1.take(anc0.len() as int));
                        assert(a1.take(anc0.len() as int) =~= anc0);
                        assert(anc[anc0.len() as int] == anc.take(a1.len() as int)[anc0.len() as int]);
                    },
                    _ => {},
                }
            }
        },
    }
}

proof fn lemma_cut_wf(d: Seq<Descriptor>, lo: int, hi: int, p: Seq<u8>, anc0: Seq<int>, d2: Seq<Descriptor>)
    requires
        wf_window(d, lo, hi),
        walk(d, lo, hi, p, anc0) is Found,
        ({
            let w = walk(d, lo, hi, p, anc0);
            &&& removable(d, w->Found_0, w->Found_1)
            &&& d2 == cut(d, w->Found_0, d[w->Found_0].span(), w->Found_1)
        }),
        forall|j: int| 0 <= j < anc0.len() ==> #[trigger] anc0[j] < lo,
    ensures
        wf_window(d2, lo, hi - d[walk(d, lo, hi, p, anc0)->Found_0].span()),
    decreases p.len(),
{
    let w = walk(d, lo, hi, p, anc0);
    let i = w->Found_0;
    let anc = w->Found_1;
    let s = d[i].span();
    lemma_walk_found(d, lo, hi, p, anc0);
    assert(d2.len() == d.len() - s);
    let c = find_sib(d, lo, hi, p)->Some_0;
    lemma_found_fits(d, lo, hi, p);
    lemma_found_splits(d, lo, hi, p);
    let rest = name_match(d[c].name@, p)->Some_0;
    let sc = d[c].span();
    if rest.len() == 0 {
        assert(i == c && anc == anc0);
    } else {
        let a1 = anc0.push(c);
        assert(w == walk(d, c + 1, c + sc, rest, a1));
        lemma_walk_found(d, c + 1, c + sc, rest, a1);
        assert(anc.take(a1.len() as int) == a1);
        assert forall|j: int| anc0.len() <= j < anc.len() implies #[trigger] anc[j] >= c by {
            if j == anc0.len() {
                assert(anc.take(a1.len() as int)[j] == a1[j]);
            }
        }
    }
    assert forall|t: int| lo <= t < c implies (#[trigger] d2[t + 0]).content_type == d[t].content_type && d2[t + 0].content_size == d[t].content_size by {
        if anc.contains(t) {
            let j = choose|j: int| 0 <= j < anc.len() && anc[j] == t;
            if j < anc0.len() {
                assert(anc.take(anc0.len() as int)[j] == anc0[j]);
            }
        }
        assert(d2[t] == d[t]);
    }
    lemma_wf_shift(d, d2, lo, c, 0);
    if rest.len() == 0 {
        assert(i == c);
        assert forall|t: int| c + s <= t < hi implies (#[trigger] d2[t + (-s)]).content_type == d[t].content_type && d2[t + (-s)].content_size == d[t].content_size by {
            assert(d2[t - s] == d[t]);
        }
        lemma_wf_shift(d, d2, c + s, hi, -s);
        lemma_wf_concat(d2, lo, c, hi - s);
    } else {
        let a1 = anc0.push(c);
        assert(w == walk(d, c + 1, c + sc, rest, a1));
        lemma_walk_found(d, c + 1, c + sc, rest, a1);
        assert(anc[anc0.len() as int] == c) by {
            assert(anc.take(a1.len() as int) == a1);
            assert(anc.take(a1.len() as int)[anc0.len() as int] == a1[anc0.len() as int]);
        }
        assert(anc.contains(c));
        assert(d[anc[anc0.len() as int]].content_size >= s);
        assert(d2[c] == crate::dir::shrink(d[c], s));
        assert forall|j: int| 0 <= j < a1.len() implies #[trigger] a1[j] < c + 1 by {}
        lemma_cut_wf(d, c + 1, c + sc, rest, a1, d2);
        assert(wf_window(d2, c + sc - s, c + sc - s));
        assert(wf_window(d2, c, c + sc - s));
        assert forall|t: int| c + sc <= t < hi implies (#[trigger] d2[t + (-s)]).content_type == d[t].content_type && d2[t + (-s)].content_size == d[t].content_size by {
            assert(d2[t - s] == d[t]);
        }
        lemma_wf_shift(d, d2, c + sc, hi, -s);
        lemma_wf_concat(d2, c, c + sc - s, hi - s);
        lemma_wf_concat(d2, lo, c, hi - s);
    }
}

/// Removing a path keeps a directory well formed.
pub proof fn lemma_remove_keeps_wf(d: Seq<Descriptor>, p: Seq<u8>, d2: Seq<Descriptor>, r: Option<Seq<Descriptor>>)
    requires
        wf(d),
        removes(d, p, d2, r),
    ensures
        wf(d2),
{
    match walk_top(d, p) {
        Walk::Found(i, anc) => {
            if removable(d, i, anc) {
                lemma_cut_wf(d, 0, d.len() as int, p, Seq::empty(), d2);
                assert(d2.len() == d.len() - d[i].span());
            }
        },
        _ => {},
    }
}

/// A sound window is tiled.
proof fn lemma_ok_wf(d: Seq<Descriptor>, lo: int, hi: int, h: u32)
    requires
        window_ok(d, lo, hi, h),
    ensures
        wf_window(d, lo, hi),
    decreases hi - lo,
{
    if lo < hi {
        let s = d[lo].span();
        if d[lo].is_dir_spec() {
            lemma_ok_wf(d, lo + 1, lo + s, h);
        }
        lemma_ok_wf(d, lo + s, hi, h);
    }
}

/// What a match in a sound window gives: the windows after it and below it
/// are sound, it is sound, and no later sibling shares its name.
proof fn lemma_found_ok(d: Seq<Descriptor>, lo: int, hi: int, p: Seq<u8>, h: u32)
    requires
        window_ok(d, lo, hi, h),
        find_sib(d, lo, hi, p) is Some,
    ensures
        ({
            let c = find_sib(d, lo, hi, p)->Some_0;
            &&& window_ok(d, c + d[c].span(), hi, h)
            &&& d[c].is_dir_spec() ==> window_ok(d, c + 1, c + d[c].span(), h)
            &&& desc_ok(d[c], h)
            &&& !sib_named(d, c + d[c].span(), hi, d[c].name@)
            &&& find_sib(d, lo, c, p) is None
        }),
    decreases hi - lo,
{
    if lo < hi && name_match(d[lo].name@, p) is None {
        lemma_found_ok(d, lo + d[lo].span(), hi, p, h);
        lemma_ok_wf(d, lo, hi, h);
        lemma_find_sib_match(d, lo + d[lo].span(), hi, p);
    }
}

/// A path that a name matches to its end is matched by no other name free of
/// separators.
proof fn lemma_other_name_no_match(n1: Seq<u8>, n2: Seq<u8>, p: Seq<u8>)
    requires
        name_match(n1, p) matches Some(r) && r.len() == 0,
        n1 != n2,
        forall|k: int| 0 <= k < n1.len() ==> !crate::dir::is_sep(#[trigger] n1[k]),
        forall|k: int| 0 <= k < n2.len() ==> !crate::dir::is_sep(#[trigger] n2[k]),
    ensures
        name_match(n2, p) is None,
{
    if name_match(n2, p) is Some {
        if n1.len() < p.len() {
            assert(p.skip(n1.len() + 1int).len() == 0);
        }
        if n2.len() < n1.len() {
            assert(p[n2.len() as int] == p.take(n1.len() as int)[n2.len() as int]);
        } else if n2.len() == n1.len() {
            assert(n2 =~= n1);
        } else {
            assert(n2[n1.len() as int] == p.take(n2.len() as int)[n1.len() as int]);
        }
    }
}

/// No sibling of a sound window matches a path that a name outside it
/// matches to its end.
proof fn lemma_no_sibling_matches(d: Seq<Descriptor>, lo: int, hi: int, p: Seq<u8>, n1: Seq<u8>, h: u32)
    requires
        window_ok(d, lo, hi, h),
        !sib_named(d, lo, hi, n1),
        name_match(n1, p) matches Some(r) && r.len() == 0,
        forall|k: int| 0 <= k < n1.len() ==> !crate::dir::is_sep(#[trigger] n1[k]),
    ensures
        find_sib(d, lo, hi, p) is None,
    decreases hi - lo,
{
    if lo < hi {
        let x = d[lo];
        assert(name_ok(x));
        lemma_other_name_no_match(n1, x.name@, p);
        lemma_no_sibling_matches(d, lo + x.span(), hi, p, n1, h);
    }
}

/// Scanning a tiled window gives the same result at another position.
proof fn lemma_find_sib_shift(d: Seq<Descriptor>, d2: Seq<Descriptor>, lo: int, hi: int, sh: int, p: Seq<u8>)
    requires
        wf_window(d, lo, hi),
        0 <= lo + sh,
        hi + sh <= d2.len(),
        forall|t: int| lo <= t < hi ==> #[trigger] d2[t + sh] == d[t],
        find_sib(d, lo, hi, p) is None,
    ensures
        find_sib(d2, lo + sh, hi + sh, p) is None,
    decreases hi - lo,
{
    if lo < hi {
        assert(d2[lo + sh] == d[lo]);
        lemma_find_sib_shift(d, d2, lo + d[lo].span(), hi, sh, p);
        assert(lo + d[lo].span() + sh == lo + sh + d2[lo + sh].span());
    }
}

proof fn lemma_cut_not_found(d: Seq<Descriptor>, lo: int, hi: int, p: Seq<u8>, anc0: Seq<int>, d2: Seq<Descriptor>, h: u32)
    requires
        window_ok(d, lo, hi, h),
        walk(d, lo, hi, p, anc0) is Found,
        ({
            let w = walk(d, lo, hi, p, anc0);
            &&& removable(d, w->Found_0, w->Found_1)
            &&& d2 == cut(d, w->Found_0, d[w->Found_0].span(), w->Found_1)
        }),
        forall|j: int| 0 <= j < anc0.len() ==> #[trigger] anc0[j] < lo,
    ensures
        !(walk(d2, lo, hi - d[walk(d, lo, hi, p, anc0)->Found_0].span(), p, anc0) is Found),
    decreases p.len(),
{
    let w = walk(d, lo, hi, p, anc0);
    let i = w->Found_0;
    let anc = w->Found_1;
    let s = d[i].span();
    lemma_ok_wf(d, lo, hi, h);
    lemma_walk_found(d, lo, hi, p, anc0);
    assert(d2.len() == d.len() - s);
    let c = find_sib(d, lo, hi, p)->Some_0;
    lemma_found_fits(d, lo, hi, p);
    lemma_found_splits(d, lo, hi, p);
    lemma_found_ok(d, lo, hi, p, h);
    lemma_find_sib_match(d, lo, hi, p);
    let rest = name_match(d[c].name@, p)->Some_0;
    let sc = d[c].span();
    if rest.len() == 0 {
        assert(i == c && anc == anc0);
    } else {
        let a1 = anc0.push(c);
        assert(w == walk(d, c + 1, c + sc, rest, a1));
        lemma_walk_found(d, c + 1, c + sc, rest, a1);
        assert(anc.take(a1.len() as int) == a1);
        assert forall|j: int| anc0.len() <= j < anc.len() implies #[trigger] anc[j] >= c by {
            if j == anc0.len() {
                assert(anc.take(a1.len() as int)[j] == a1[j]);
            }
        }
    }
    assert(agree(d, d2, lo, c)) by {
        assert forall|t: int| lo <= t < c implies (#[trigger] d2[t]) == d[t] by {
            if anc.contains(t) {
                let j = choose|j: int| 0 <= j < anc.len() && anc[j] == t;
                if j < anc0.len() {
                    assert(anc.take(anc0.len() as int)[j] == anc0[j]);
                }
            }
        }
    }
    if rest.len() == 0 {
        lemma_scan_through(d, d2, lo, c, hi - s, p);
        assert forall|t: int| c + s <= t < hi implies #[trigger] d2[t + (-s)] == d[t] by {}
        assert(forall|k: int| 0 <= k < d[c].name@.len() ==> !crate::dir::is_sep(#[trigger] d[c].name@[k]));
        lemma_no_sibling_matches(d, c + s, hi, p, d[c].name@, h);
        lemma_find_sib_shift(d, d2, c + s, hi, -s, p);
        assert(find_sib(d2, lo, hi - s, p) is None);
    } else {
        let a1 = anc0.push(c);
        assert(anc[anc0.len() as int] == c) by {
            assert(anc.take(a1.len() as int)[anc0.len() as int] == a1[anc0.len() as int]);
        }
        assert(anc.contains(c));
        assert(d[anc[anc0.len() as int]].content_size >= s);
        assert(d2[c] == crate::dir::shrink(d[c], s));
        lemma_scan_found(d, d2, lo, hi, hi - s, p, c);
        assert forall|j: int| 0 <= j < a1.len() implies #[trigger] a1[j] < c + 1 by {}
        lemma_cut_not_found(d, c + 1, c + sc, rest, a1, d2, h);
        assert(walk(d2, lo, hi - s, p, anc0) == walk(d2, c + 1, c + sc - s, rest, a1));
    }
}

/// After removing a path from a sound directory, the path names nothing.
pub proof fn lemma_removed_not_found(d: Seq<Descriptor>, p: Seq<u8>, d2: Seq<Descriptor>, sub: Seq<Descriptor>, h: u32)
    requires
        fsck_ok(d, h),
        removes(d, p, d2, Some(sub)),
    ensures
        find_path(d2, p) is None,
{
    match walk_top(d, p) {
        Walk::Found(i, anc) => {
            crate::dir::lemma_walk_bounds(d, 0, d.len() as int, p, Seq::empty());
            assert(removable(d, i, anc));
            lemma_cut_not_found(d, 0, d.len() as int, p, Seq::empty(), d2, h);
            assert(d2.len() == d.len() - d[i].span());
        },
        _ => {},
    }
}

/// The window `[lo, hi)` is tiled, and within it and below it no two
/// siblings share a name.
pub open spec fn unique_window(d: Seq<Descriptor>, lo: int, hi: int) -> bool
    decreases hi - lo,
{
    if lo == hi {
        0 <= lo <= d.len()
    } else if lo < 0 || hi > d.len() || lo > hi || d[lo].span() > hi - lo {
        false
    } else {
        &&& !sib_named(d, lo + d[lo].span(), hi, d[lo].name@)
        &&& d[lo].is_dir_spec() ==> unique_window(d, lo + 1, lo + d[lo].span())
        &&& unique_window(d, lo + d[lo].span(), hi)
    }
}

/// Sibling names are unique throughout the directory.
pub open spec fn unique(d: Seq<Descriptor>) -> bool {
    unique_window(d, 0, d.len() as int)
}

/// No sibling of `[lo, m)` shares a name with a sibling of `[m, hi)`.
pub open spec fn apart(d: Seq<Descriptor>, lo: int, m: int, hi: int) -> bool
    decreases m - lo,
{
    if lo < 0 || lo >= m || m > d.len() || d[lo].span() > m - lo {
        true
    } else {
        !sib_named(d, m, hi, d[lo].name@) && apart(d, lo + d[lo].span(), m, hi)
    }
}

proof fn lemma_unique_wf(d: Seq<Descriptor>, lo: int, hi: int)
    requires
        unique_window(d, lo, hi),
    ensures
        wf_window(d, lo, hi),
    decreases hi - lo,
{
    if lo < hi {
        let s = d[lo].span();
        if d[lo].is_dir_spec() {
            lemma_unique_wf(d, lo + 1, lo + s);
        }
        lemma_unique_wf(d, lo + s, hi);
    }
}

/// Siblings named in a window made of two tiled parts are those named in either.
proof fn lemma_sib_named_split(d: Seq<Descriptor>, a: int, m: int, hi: int, n: Seq<u8>)
    requires
        wf_window(d, a, m),
        m <= hi <= d.len(),
    ensures
        sib_named(d, a, hi, n) == (sib_named(d, a, m, n) || sib_named(d, m, hi, n)),
    decreases m - a,
{
    if a < m {
        lemma_sib_named_split(d, a + d[a].span(), m, hi, n);
    }
}

/// Which names a tiled window's siblings carry depends only on names, kinds
/// and sizes.
proof fn lemma_sib_named_shift(d: Seq<Descriptor>, d2: Seq<Descriptor>, lo: int, hi: int, sh: int, n: Seq<u8>)
    requires
        wf_window(d, lo, hi),
        0 <= lo + sh,
        hi + sh <= d2.len(),
        forall|t: int| lo <= t < hi ==> (#[trigger] d2[t + sh]).name == d[t].name && d2[t + sh].content_type == d[t].content_type && d2[t + sh].content_size == d[t].content_size,
    ensures
        sib_named(d2, lo + sh, hi + sh, n) == sib_named(d, lo, hi, n),
    decreases hi - lo,
{
    if lo < hi {
        assert(d2[lo + sh].name == d[lo].name);
        lemma_sib_named_shift(d, d2, lo + d[lo].span(), hi, sh, n);
        assert(lo + d[lo].span() + sh == lo + sh + d2[lo + sh].span());
    }
}

proof fn lemma_unique_shift(d: Seq<Descriptor>, d2: Seq<Descriptor>, lo: int, hi: int, sh: int)
    requires
        unique_window(d, lo, hi),
        0 <= lo + sh,
        hi + sh <= d2.len(),
        forall|t: int| lo <= t < hi ==> (#[trigger] d2[t + sh]).name == d[t].name && d2[t + sh].content_type == d[t].content_type && d2[t + sh].content_size == d[t].content_size,
    ensures
        unique_window(d2, lo + sh, hi + sh),
    decreases hi - lo,
{
    if lo < hi {
        let s = d[lo].span();
        assert(d2[lo + sh].span() == s);
        lemma_unique_wf(d, lo + s, hi);
        lemma_sib_named_shift(d, d2, lo + s, hi, sh, d[lo].name@);
        assert(lo + s + sh == lo + sh + s);
        if d[lo].is_dir_spec() {
            lemma_unique_shift(d, d2, lo + 1, lo + s, sh);
            assert(lo + 1 + sh == lo + sh + 1);
        }
        lemma_unique_shift(d, d2, lo + s, hi, sh);
    }
}

/// Two unique windows side by side whose siblings have different names form
/// a unique window.
proof fn lemma_unique_concat(d: Seq<Descriptor>, lo: int, m: int, hi: int)
    requires
        unique_window(d, lo, m),
        unique_window(d, m, hi),
        apart(d, lo, m, hi),
    ensures
        unique_window(d, lo, hi),
    decreases m - lo,
{
    if lo < m {
        let s = d[lo].span();
        lemma_unique_wf(d, lo + s, m);
        lemma_sib_named_split(d, lo + s, m, hi, d[lo].name@);
        lemma_unique_concat(d, lo + s, m, hi);
    }
}

/// A unique window splits at a sibling into unique parts kept apart.
proof fn lemma_unique_split(d: Seq<Descriptor>, lo: int, hi: int, p: Seq<u8>)
    requires
        unique_window(d, lo, hi),
        find_sib(d, lo, hi, p) is Some,
    ensures
        ({
            let c = find_sib(d, lo, hi, p)->Some_0;
            &&& unique_window(d, lo, c)
            &&& unique_window(d, c, hi)
            &&& apart(d, lo, c, hi)
        }),
    decreases hi - lo,
{
    lemma_unique_wf(d, lo, hi);
    lemma_find_sib_match(d, lo, hi, p);
    let c = find_sib(d, lo, hi, p)->Some_0;
    if lo < c {
        let s = d[lo].span();
        lemma_unique_split(d, lo + s, hi, p);
        lemma_find_sib_match(d, lo + s, hi, p);
        lemma_unique_wf(d, lo + s, c);
        lemma_sib_named_split(d, lo + s, c, hi, d[lo].name@);
    }
}

/// The chain that creating a path adds is unique: each of its windows holds one entry.
proof fn lemma_unique_chain(d: Seq<Descriptor>, s: int, m: int)
    requires
        0 <= s,
        s + m <= d.len(),
        0 <= m,
        forall|j: int| 0 <= j < m ==> (#[trigger] d[s + j]).content_type == 0 && d[s + j].content_size == m - 1 - j,
    ensures
        unique_window(d, s, s + m),
    decreases m,
{
    if m > 0 {
        assert(d[s + 0].content_size == m - 1);
        assert forall|j: int| 0 <= j < m - 1 implies (#[trigger] d[(s + 1) + j]).content_type == 0 && d[(s + 1) + j].content_size == (m - 1) - 1 - j by {
            assert(d[s + (j + 1)].content_size == m - 1 - (j + 1));
            assert(s + (j + 1) == (s + 1) + j);
        }
        lemma_unique_chain(d, s + 1, m - 1);
    }
}

/// A window with no sibling leading `p` is apart from an entry named by the
/// first segment of `p`.
proof fn lemma_apart_missing(d: Seq<Descriptor>, lo: int, m: int, hi: int, p: Seq<u8>)
    requires
        wf_window(d, lo, m),
        find_sib(d, lo, m, p) is None,
        m < hi <= d.len(),
        d[m].span() == hi - m,
        name_match(d[m].name@, p) is Some,
    ensures
        apart(d, lo, m, hi),
    decreases m - lo,
{
    if lo < m {
        assert(d[lo].name@ != d[m].name@);
        assert(sib_named(d, m, hi, d[lo].name@) == (d[m].name@ == d[lo].name@ || sib_named(d, hi, hi, d[lo].name@)));
        lemma_apart_missing(d, lo + d[lo].span(), m, hi, p);
    }
}

/// Keeping siblings apart depends only on names, kinds and sizes.
proof fn lemma_apart_shift(d: Seq<Descriptor>, d2: Seq<Descriptor>, lo: int, m: int, hi: int, m2: int, hi2: int)
    requires
        wf_window(d, lo, m),
        apart(d, lo, m, hi),
        lo <= m,
        m2 <= d2.len(),
        forall|t: int| lo <= t < m ==> (#[trigger] d2[t]) == d[t],
        forall|n: Seq<u8>| #[trigger] sib_named(d2, m2, hi2, n) == sib_named(d, m, hi, n),
        m == m2,
    ensures
        apart(d2, lo, m2, hi2),
    decreases m - lo,
{
    if lo < m {
        assert(d2[lo] == d[lo]);
        lemma_apart_shift(d, d2, lo + d[lo].span(), m, hi, m2, hi2);
    }
}

proof fn lemma_insert_unique(d: Seq<Descriptor>, lo: int, hi: int, p: Seq<u8>, anc0: Seq<int>, k: int, d2: Seq<Descriptor>)
    requires
        unique_window(d, lo, hi),
        walk(d, lo, hi, p, anc0) is Missing,
        ({
            let w = walk(d, lo, hi, p, anc0);
            let names = chain_names(w->Missing_2);
            &&& names is Some
            &&& k == names->Some_0.len()
            &&& is_chain(d2.subrange(w->Missing_0, w->Missing_0 + k), names->Some_0)
            &&& d2 == inserted(d, w->Missing_0, w->Missing_1, d2.subrange(w->Missing_0, w->Missing_0 + k))
            &&& fits(d, w->Missing_1, k)
        }),
        forall|j: int| 0 <= j < anc0.len() ==> #[trigger] anc0[j] < lo,
    ensures
        unique_window(d2, lo, hi + k),
    decreases p.len(),
{
    let w = walk(d, lo, hi, p, anc0);
    let at = w->Missing_0;
    let anc = w->Missing_1;
    let rest = w->Missing_2;
    let names = chain_names(rest)->Some_0;
    let c = d2.subrange(at, at + k);
    lemma_unique_wf(d, lo, hi);
    lemma_walk_ancestors(d, lo, hi, p, anc0);
    lemma_chain_match(rest);
    lemma_insert_wf(d, lo, hi, p, anc0, k, d2);
    assert(d2.len() == d.len() + k);
    assert forall|j: int| 0 <= j < k implies (#[trigger] d2[at + j]).content_type == 0 && d2[at + j].content_size == k - 1 - j by {
        assert(d2[at + j] == c[j]);
    }
    lemma_unique_chain(d2, at, k);
    lemma_wf_chain(d2, at, k);
    assert forall|t: int| at <= t < hi implies (#[trigger] d2[t + k]).name == d[t].name && d2[t + k].content_type == d[t].content_type && d2[t + k].content_size == d[t].content_size by {
        assert(d2[t + k] == d[t]);
    }
    match find_sib(d, lo, hi, p) {
        None => {
            assert forall|t: int| lo <= t < hi implies (#[trigger] d2[t + 0]).name == d[t].name && d2[t + 0].content_type == d[t].content_type && d2[t + 0].content_size == d[t].content_size by {
                if anc.contains(t) {
                    let j = choose|j: int| 0 <= j < anc.len() && anc[j] == t;
                    assert(anc0[j] < lo);
                }
                assert(d2[t + 0] == d[t]);
            }
            lemma_unique_shift(d, d2, lo, hi, 0);
            lemma_wf_shift(d, d2, lo, hi, 0);
            assert forall|t: int| lo <= t < hi implies #[trigger] d2[t] == d[t] by {
                assert(d2[t + 0] == d[t]);
            }
            lemma_scan_through(d, d2, lo, hi, hi, p);
            lemma_chain_valid(rest, 0);
            lemma_holds_view(c[0], names[0]);
            assert(d2[hi] == c[0]);
            lemma_find_sib_none_frame(d, d2, lo, hi, p);
            lemma_apart_missing(d2, lo, hi, hi + k, p);
            lemma_unique_concat(d2, lo, hi, hi + k);
        },
        Some(cc) => {
            lemma_found_fits(d, lo, hi, p);
            lemma_found_splits(d, lo, hi, p);
            lemma_unique_split(d, lo, hi, p);
            let rest1 = name_match(d[cc].name@, p)->Some_0;
            let s = d[cc].span();
            let a1 = anc0.push(cc);
            assert(w == walk(d, cc + 1, cc + s, rest1, a1));
            lemma_walk_ancestors(d, cc + 1, cc + s, rest1, a1);
            assert(anc[anc0.len() as int] == cc) by {
                assert(anc.take(a1.len() as int) == a1);
                assert(anc.take(a1.len() as int)[anc0.len() as int] == a1[anc0.len() as int]);
            }
            assert forall|t: int| lo <= t < cc implies (#[trigger] d2[t]) == d[t] by {
                if anc.contains(t) {
                    let j = choose|j: int| 0 <= j < anc.len() && anc[j] == t;
                    if j < anc0.len() {
                        assert(anc.take(anc0.len() as int)[j] == anc0[j]);
                    } else {
                        assert(anc.take(a1.len() as int) == a1);
                    }
                }
            }
            assert forall|t: int| lo <= t < cc implies (#[trigger] d2[t + 0]).name == d[t].name && d2[t + 0].content_type == d[t].content_type && d2[t + 0].content_size == d[t].content_size by {
                assert(d2[t + 0] == d2[t]);
            }
            lemma_unique_shift(d, d2, lo, cc, 0);
            lemma_wf_shift(d, d2, lo, cc, 0);
            assert(anc.contains(cc));
            assert(d[anc[anc0.len() as int]].content_size + k <= u32::MAX);
            assert(d2[cc] == crate::dir::grow(d[cc], k));
            assert forall|j: int| 0 <= j < a1.len() implies #[trigger] a1[j] < cc + 1 by {}
            lemma_unique_split(d, lo, hi, p);
            lemma_insert_unique(d, cc + 1, cc + s, rest1, a1, k, d2);
            lemma_insert_wf(d, cc + 1, cc + s, rest1, a1, k, d2);
            lemma_unique_wf(d, cc, hi);
            lemma_unique_shift(d, d2, cc + s, hi, k);
            lemma_wf_shift(d, d2, cc + s, hi, k);
            assert forall|t: int| cc + s <= t < hi implies (#[trigger] d2[t + k]).name == d[t].name && d2[t + k].content_type == d[t].content_type && d2[t + k].content_size == d[t].content_size by {}
            lemma_sib_named_shift(d, d2, cc + s, hi, k, d[cc].name@);
            assert(wf_window(d2, cc + s + k, cc + s + k));
            assert(wf_window(d2, cc, cc + s + k));
            assert(wf_window(d, cc + s, cc + s));
            assert(wf_window(d, cc, cc + s));
            assert(unique_window(d2, cc, hi + k));
            lemma_wf_concat(d2, cc, cc + s + k, hi + k);
            assert forall|n: Seq<u8>| #[trigger] sib_named(d2, cc, hi + k, n) == sib_named(d, cc, hi, n) by {
                lemma_sib_named_shift(d, d2, cc + s, hi, k, n);
                lemma_sib_named_split(d2, cc, cc + s + k, hi + k, n);
                lemma_sib_named_split(d, cc, cc + s, hi, n);
            }
            lemma_apart_shift(d, d2, lo, cc, hi, cc, hi + k);
            lemma_unique_concat(d2, lo, cc, hi + k);
        },
    }
}

proof fn lemma_find_sib_none_frame(d: Seq<Descriptor>, d2: Seq<Descriptor>, lo: int, hi: int, p: Seq<u8>)
    requires
        wf_window(d, lo, hi),
        find_sib(d, lo, hi, p) is None,
        hi <= d2.len(),
        forall|t: int| lo <= t < hi ==> #[trigger] d2[t] == d[t],
    ensures
        find_sib(d2, lo, hi, p) is None,
        wf_window(d2, lo, hi),
    decreases hi - lo,
{
    if lo < hi {
        assert(d2[lo] == d[lo]);
        if d[lo].is_dir_spec() {
            lemma_find_sib_none_frame_wf(d, d2, lo + 1, lo + d[lo].span());
        }
        lemma_find_sib_none_frame(d, d2, lo + d[lo].span(), hi, p);
    }
}

proof fn lemma_find_sib_none_frame_wf(d: Seq<Descriptor>, d2: Seq<Descriptor>, lo: int, hi: int)
    requires
        wf_window(d, lo, hi),
        hi <= d2.len(),
        forall|t: int| lo <= t < hi ==> #[trigger] d2[t] == d[t],
    ensures
        wf_window(d2, lo, hi),
    decreases hi - lo,
{
    if lo < hi {
        assert(d2[lo] == d[lo]);
        if d[lo].is_dir_spec() {
            lemma_find_sib_none_frame_wf(d, d2, lo + 1, lo + d[lo].span());
        }
        lemma_find_sib_none_frame_wf(d, d2, lo + d[lo].span(), hi);
    }
}

/// Creating a path keeps sibling names unique throughout the directory.
pub proof fn lemma_create_keeps_unique(d: Seq<Descriptor>, p: Seq<u8>, d2: Seq<Descriptor>, r: Result<usize, crate::types::ErrorKind>)
    requires
        unique(d),
        creates(d, p, d2, r),
    ensures
        unique(d2),
{
    match walk_top(d, p) {
        Walk::Missing(at, anc, rest) => {
            if r is Ok {
                let names = chain_names(rest)->Some_0;
                let k = names.len() as int;
                crate::dir::lemma_chain_nonempty(rest);
                lemma_insert_unique(d, 0, d.len() as int, p, Seq::empty(), k, d2);
                assert(d2.len() == d.len() + k);
            }
        },
        _ => {},
    }
}

proof fn lemma_apart_drop(d: Seq<Descriptor>, d2: Seq<Descriptor>, lo: int, c: int, hi: int, s: int, hi2: int)
    requires
        wf_window(d, lo, c),
        apart(d, lo, c, hi),
        c + s <= hi,
        d[c].span() == s,
        wf_window(d, c + s, hi),
        forall|t: int| lo <= t < c ==> (#[trigger] d2[t]) == d[t],
        forall|n: Seq<u8>| #[trigger] sib_named(d2, c, hi2, n) == sib_named(d, c + s, hi, n),
        c <= d2.len(),
    ensures
        apart(d2, lo, c, hi2),
    decreases c - lo,
{
    if lo < c {
        assert(d2[lo] == d[lo]);
        assert(sib_named(d, c, hi, d[lo].name@) == (d[c].name@ == d[lo].name@ || sib_named(d, c + s, hi, d[lo].name@)));
        lemma_apart_drop(d, d2, lo + d[lo].span(), c, hi, s, hi2);
    }
}

proof fn lemma_cut_unique(d: Seq<Descriptor>, lo: int, hi: int, p: Seq<u8>, anc0: Seq<int>, d2: Seq<Descriptor>)
    requires
        unique_window(d, lo, hi),
        walk(d, lo, hi, p, anc0) is Found,
        ({
            let w = walk(d, lo, hi, p, anc0);
            &&& removable(d, w->Found_0, w->Found_1)
            &&& d2 == cut(d, w->Found_0, d[w->Found_0].span(), w->Found_1)
        }),
        forall|j: int| 0 <= j < anc0.len() ==> #[trigger] anc0[j] < lo,
    ensures
        unique_window(d2, lo, hi - d[walk(d, lo, hi, p, anc0)->Found_0].span()),
    decreases p.len(),
{
    let w = walk(d, lo, hi, p, anc0);
    let i = w->Found_0;
    let anc = w->Found_1;
    let s = d[i].span();
    lemma_unique_wf(d, lo, hi);
    lemma_walk_found(d, lo, hi, p, anc0);
    lemma_cut_wf(d, lo, hi, p, anc0, d2);
    assert(d2.len() == d.len() - s);
    let c = find_sib(d, lo, hi, p)->Some_0;
    lemma_found_fits(d, lo, hi, p);
    lemma_found_splits(d, lo, hi, p);
    lemma_unique_split(d, lo, hi, p);
    let rest = name_match(d[c].name@, p)->Some_0;
    let sc = d[c].span();
    if rest.len() == 0 {
        assert(i == c && anc == anc0);
    } else {
        let a1 = anc0.push(c);
        assert(w == walk(d, c + 1, c + sc, rest, a1));
        lemma_walk_found(d, c + 1, c + sc, rest, a1);
        assert(anc.take(a1.len() as int) == a1);
        assert forall|j: int| anc0.len() <= j < anc.len() implies #[trigger] anc[j] >= c by {
            if j == anc0.len() {
                assert(anc.take(a1.len() as int)[j] == a1[j]);
            }
        }
    }
    assert forall|t: int| lo <= t < c implies (#[trigger] d2[t]) == d[t] by {
        if anc.contains(t) {
            let j = choose|j: int| 0 <= j < anc.len() && anc[j] == t;
            if j < anc0.len() {
                assert(anc.take(anc0.len() as int)[j] == anc0[j]);
            }
        }
    }
    assert forall|t: int| lo <= t < c implies (#[trigger] d2[t + 0]).name == d[t].name && d2[t + 0].content_type == d[t].content_type && d2[t + 0].content_size == d[t].content_size by {
        assert(d2[t + 0] == d2[t]);
    }
    lemma_unique_shift(d, d2, lo, c, 0);
    lemma_wf_shift(d, d2, lo, c, 0);
    assert(wf_window(d, c + sc, c + sc));
    if rest.len() == 0 {
        assert forall|t: int| c + s <= t < hi implies (#[trigger] d2[t + (-s)]).name == d[t].name && d2[t + (-s)].content_type == d[t].content_type && d2[t + (-s)].content_size == d[t].content_size by {
            assert(d2[t - s] == d[t]);
        }
        lemma_unique_wf(d, c, hi);
        lemma_unique_shift(d, d2, c + s, hi, -s);
        assert forall|n: Seq<u8>| #[trigger] sib_named(d2, c, hi - s, n) == sib_named(d, c + s, hi, n) by {
            lemma_sib_named_shift(d, d2, c + s, hi, -s, n);
        }
        lemma_apart_drop(d, d2, lo, c, hi, s, hi - s);
        lemma_unique_concat(d2, lo, c, hi - s);
    } else {
        let a1 = anc0.push(c);
        assert(anc[anc0.len() as int] == c) by {
            assert(anc.take(a1.len() as int)[anc0.len() as int] == a1[anc0.len() as int]);
        }
        assert(anc.contains(c));
        assert(d[anc[anc0.len() as int]].content_size >= s);
        assert(d2[c] == crate::dir::shrink(d[c], s));
        assert forall|j: int| 0 <= j < a1.len() implies #[trigger] a1[j] < c + 1 by {}
        lemma_cut_unique(d, c + 1, c + sc, rest, a1, d2);
        lemma_cut_wf(d, c + 1, c + sc, rest, a1, d2);
        lemma_unique_wf(d, c, hi);
        assert forall|t: int| c + sc <= t < hi implies (#[trigger] d2[t + (-s)]).name == d[t].name && d2[t + (-s)].content_type == d[t].content_type && d2[t + (-s)].content_size == d[t].content_size by {
            assert(d2[t - s] == d[t]);
        }
        lemma_unique_shift(d, d2, c + sc, hi, -s);
        lemma_wf_shift(d, d2, c + sc, hi, -s);
        lemma_sib_named_shift(d, d2, c + sc, hi, -s, d[c].name@);
        assert(wf_window(d2, c + sc - s, c + sc - s));
        assert(wf_window(d2, c, c + sc - s));
        assert(wf_window(d, c, c + sc));
        assert(unique_window(d2, c, hi - s));
        assert forall|n: Seq<u8>| #[trigger] sib_named(d2, c, hi - s, n) == sib_named(d, c, hi, n) by {
            lemma_sib_named_shift(d, d2, c + sc, hi, -s, n);
            lemma_sib_named_split(d2, c, c + sc - s, hi - s, n);
            lemma_sib_named_split(d, c, c + sc, hi, n);
        }
        lemma_apart_shift(d, d2, lo, c, hi, c, hi - s);
        lemma_unique_concat(d2, lo, c, hi - s);
    }
}

/// Removing a path keeps sibling names unique throughout the directory.
pub proof fn lemma_remove_keeps_unique(d: Seq<Descriptor>, p: Seq<u8>, d2: Seq<Descriptor>, r: Option<Seq<Descriptor>>)
    requires
        unique(d),
        removes(d, p, d2, r),
    ensures
        unique(d2),
{
    match walk_top(d, p) {
        Walk::Found(i, anc) => {
            if removable(d, i, anc) {
                crate::dir::lemma_walk_bounds(d, 0, d.len() as int, p, Seq::empty());
                lemma_cut_unique(d, 0, d.len() as int, p, Seq::empty(), d2);
                assert(d2.len() == d.len() - d[i].span());
            }
        },
        _ => {},
    }
}

proof fn lemma_walk_grafted(d: Seq<Descriptor>, lo: int, hi: int, p: Seq<u8>, anc0: Seq<int>, j: int, anc3: Seq<int>, sub: Seq<Descriptor>, d2: Seq<Descriptor>)
    requires
        wf_window(d, lo, hi),
        walk(d, lo, hi, p, anc0) == Walk::Found(j, anc3),
        sub.len() >= 1,
        fits(d, anc3, sub.len() - 1),
        d2 == grafted(d, j, anc3, sub),
        forall|t: int| 0 <= t < anc0.len() ==> #[trigger] anc0[t] < lo,
    ensures
        walk(d2, lo, hi + sub.len() - 1, p, anc0) is Found,
        (walk(d2, lo, hi + sub.len() - 1, p, anc0)->Found_0) == j,
    decreases p.len(),
{
    let k = sub.len() - 1;
    lemma_walk_found(d, lo, hi, p, anc0);
    assert(d2.len() == d.len() + k);
    let c = find_sib(d, lo, hi, p)->Some_0;
    lemma_found_fits(d, lo, hi, p);
    lemma_find_sib_match(d, lo, hi, p);
    let rest = name_match(d[c].name@, p)->Some_0;
    let sc = d[c].span();
    if rest.len() == 0 {
        assert(j == c && anc3 == anc0);
    } else {
        let a1 = anc0.push(c);
        assert(walk(d, lo, hi, p, anc0) == walk(d, c + 1, c + sc, rest, a1));
        lemma_walk_found(d, c + 1, c + sc, rest, a1);
        assert(anc3.take(a1.len() as int) == a1);
        assert forall|t: int| anc0.len() <= t < anc3.len() implies #[trigger] anc3[t] >= c by {
            if t == anc0.len() {
                assert(anc3.take(a1.len() as int)[t] == a1[t]);
            }
        }
    }
    assert(agree(d, d2, lo, c)) by {
        assert forall|t: int| lo <= t < c implies (#[trigger] d2[t]) == d[t] by {
            if anc3.contains(t) {
                let u = choose|u: int| 0 <= u < anc3.len() && anc3[u] == t;
                if u < anc0.len() {
                    assert(anc3.take(anc0.len() as int)[u] == anc0[u]);
                }
            }
        }
    }
    if rest.len() == 0 {
        assert(!anc3.contains(j)) by {
            if anc3.contains(j) {
                let u = choose|u: int| 0 <= u < anc3.len() && anc3[u] == j;
            }
        }
        assert(d2[j].name == d[j].name);
        lemma_scan_found(d, d2, lo, hi, hi + k, p, c);
    } else {
        let a1 = anc0.push(c);
        assert(anc3[anc0.len() as int] == c) by {
            assert(anc3.take(a1.len() as int)[anc0.len() as int] == a1[anc0.len() as int]);
        }
        assert(anc3.contains(c));
        assert(d[anc3[anc0.len() as int]].content_size + k <= u32::MAX);
        assert(c != j);
        assert(d2[c] == crate::dir::grow(d[c], k));
        lemma_scan_found(d, d2, lo, hi, hi + k, p, c);
        assert forall|t: int| 0 <= t < a1.len() implies #[trigger] a1[t] < c + 1 by {}
        lemma_walk_grafted(d, c + 1, c + sc, rest, a1, j, anc3, sub, d2);
        assert(walk(d2, lo, hi + k, p, anc0) == walk(d2, c + 1, c + sc + k, rest, a1));
    }
}

/// After a move, the destination names the subtree that the source named:
/// the same kind, size and payload at its root, and the same descendants.
pub proof fn lemma_move_finds_subtree(d: Seq<Descriptor>, src: Seq<u8>, dst: Seq<u8>, d2: Seq<Descriptor>)
    requires
        wf(d),
        moves(d, src, dst, d2, Ok(())),
    ensures
        walk_top(d, src) matches Walk::Found(i, _) && exists|j: int| {
            &&& #[trigger] find_path(d2, dst) == Some(j)
            &&& d2[j].content_type == d[i].content_type
            &&& d2[j].content_size == d[i].content_size
            &&& d2[j].section == d[i].section
            &&& d2.subrange(j + 1, j + d[i].span()) == d.subrange(i + 1, i + d[i].span())
        },
{
    let w = walk_top(d, src);
    let i = w->Found_0;
    let (d1, sub, d3, d4, j, anc3) = choose|d1: Seq<Descriptor>, sub: Seq<Descriptor>, d3: Seq<Descriptor>, d4: Seq<Descriptor>, j: usize, anc3: Seq<int>| {
        &&& #[trigger] removes(d, src, d1, Some(sub))
        &&& exists|rm: Option<Seq<Descriptor>>| #[trigger] removes(d1, dst, d3, rm)
        &&& #[trigger] creates(d3, dst, d4, Ok(j))
        &&& walk_top(d4, dst) == Walk::Found(j as int, anc3)
        &&& fits(d4, anc3, sub.len() - 1)
        &&& d2 == #[trigger] grafted(d4, j as int, anc3, sub)
    };
    let rm = choose|rm: Option<Seq<Descriptor>>| #[trigger] removes(d1, dst, d3, rm);
    lemma_remove_keeps_wf(d, src, d1, Some(sub));
    lemma_remove_keeps_wf(d1, dst, d3, rm);
    lemma_create_keeps_wf(d3, dst, d4, Ok(j));
    crate::dir::lemma_walk_bounds(d, 0, d.len() as int, src, Seq::empty());
    assert(removable(d, i, w->Found_1));
    let s = d[i].span();
    assert(sub == d.subrange(i, i + s));
    assert(sub.len() == s);
    let k = s - 1;
    lemma_walk_grafted(d4, 0, d4.len() as int, dst, Seq::empty(), j as int, anc3, sub, d2);
    crate::dir::lemma_walk_bounds(d4, 0, d4.len() as int, dst, Seq::empty());
    lemma_walk_found(d4, 0, d4.len() as int, dst, Seq::empty());
    assert(d2.len() == d4.len() + k);
    assert(walk_top(d2, dst) == walk(d2, 0, d4.len() + k, dst, Seq::<int>::empty()));
    assert(!anc3.contains(j as int)) by {
        if anc3.contains(j as int) {
            let u = choose|u: int| 0 <= u < anc3.len() && anc3[u] == j as int;
        }
    }
    assert(d2[j as int] == crate::types::Descriptor { name: d4[j as int].name, ..sub[0] });
    assert(d2.subrange(j + 1, j + s) =~= d.subrange(i + 1, i + s));
    assert(find_path(d2, dst) == Some(j as int));
}

/// Overwriting a descriptor with one of the same subtree size, and no more a
/// directory than it was, keeps a window tiled.
pub proof fn lemma_wf_overwrite(d: Seq<Descriptor>, lo: int, hi: int, i: int, x: Descriptor)
    requires
        wf_window(d, lo, hi),
        0 <= i < d.len(),
        x.span() == d[i].span(),
        x.is_dir_spec() ==> d[i].is_dir_spec(),
    ensures
        wf_window(d.update(i, x), lo, hi),
    decreases hi - lo,
{
    let d2 = d.update(i, x);
    if lo < hi {
        let s = d[lo].span();
        assert(d2[lo].span() == s);
        if d[lo].is_dir_spec() {
            lemma_wf_overwrite(d, lo + 1, lo + s, i, x);
        }
        lemma_wf_overwrite(d, lo + s, hi, i, x);
    }
}

/// Linking a path keeps a directory well formed.
pub proof fn lemma_link_keeps_wf(d: Seq<Descriptor>, p: Seq<u8>, src: Descriptor, d2: Seq<Descriptor>, r: Result<usize, crate::types::ErrorKind>)
    requires
        wf(d),
        links(d, p, src, d2, r),
    ensures
        wf(d2),
{
    if !src.is_dir_spec() {
        let (mid, r0) = choose|mid: Seq<Descriptor>, r0: Result<usize, crate::types::ErrorKind>| {
            &&& #[trigger] creates(d, p, mid, r0)
            &&& match r0 {
                Err(e) => r == Err::<usize, crate::types::ErrorKind>(e) && d2 == d,
                Ok(i) => if mid[i as int].is_dir_spec() && mid[i as int].content_size != 0 {
                    r == Err::<usize, crate::types::ErrorKind>(crate::types::ErrorKind::InvalidInput) && d2 == mid
                } else {
                    r == Ok::<usize, crate::types::ErrorKind>(i) && d2 == mid.update(i as int, linked(mid[i as int], src))
                },
            }
        };
        lemma_create_keeps_wf(d, p, mid, r0);
        if r0 is Ok {
            let i = r0->Ok_0;
            crate::dir::lemma_created_in_range(d, p, mid, i);
            if !(mid[i as int].is_dir_spec() && mid[i as int].content_size != 0) {
                lemma_wf_overwrite(mid, 0, mid.len() as int, i as int, linked(mid[i as int], src));
            }
        }
    }
}

/// The subtree that a walk finds in a tiled window is tiled.
proof fn lemma_walk_found_tree(d: Seq<Descriptor>, lo: int, hi: int, p: Seq<u8>, anc0: Seq<int>)
    requires
        wf_window(d, lo, hi),
        walk(d, lo, hi, p, anc0) is Found,
    ensures
        ({
            let i = walk(d, lo, hi, p, anc0)->Found_0;
            wf_window(d, i, i + d[i].span())
        }),
    decreases p.len(),
{
    lemma_walk_found(d, lo, hi, p, anc0);
    let c = find_sib(d, lo, hi, p)->Some_0;
    lemma_found_fits(d, lo, hi, p);
    let rest = name_match(d[c].name@, p)->Some_0;
    if rest.len() == 0 {
        assert(wf_window(d, c + d[c].span(), c + d[c].span()));
    } else {
        lemma_walk_found_tree(d, c + 1, c + d[c].span(), rest, anc0.push(c));
    }
}

proof fn lemma_graft_wf(d: Seq<Descriptor>, lo: int, hi: int, p: Seq<u8>, anc0: Seq<int>, j: int, anc3: Seq<int>, sub: Seq<Descriptor>, d2: Seq<Descriptor>)
    requires
        wf_window(d, lo, hi),
        walk(d, lo, hi, p, anc0) == Walk::Found(j, anc3),
        d[j].span() == 1,
        sub.len() >= 1,
        sub[0].span() == sub.len(),
        wf_window(sub, 0, sub.len() as int),
        fits(d, anc3, sub.len() - 1),
        d2 == grafted(d, j, anc3, sub),
        forall|t: int| 0 <= t < anc0.len() ==> #[trigger] anc0[t] < lo,
    ensures
        wf_window(d2, lo, hi + sub.len() - 1),
        d2.len() == d.len() + sub.len() - 1,
    decreases p.len(),
{
    let k = sub.len() - 1;
    let s = sub.len() as int;
    lemma_walk_found(d, lo, hi, p, anc0);
    assert(d2.len() == d.len() + k);
    let c = find_sib(d, lo, hi, p)->Some_0;
    lemma_found_fits(d, lo, hi, p);
    lemma_found_splits(d, lo, hi, p);
    lemma_find_sib_match(d, lo, hi, p);
    let rest = name_match(d[c].name@, p)->Some_0;
    let sc = d[c].span();
    if rest.len() == 0 {
        assert(j == c && anc3 == anc0);
    } else {
        let a1 = anc0.push(c);
        assert(walk(d, lo, hi, p, anc0) == walk(d, c + 1, c + sc, rest, a1));
        lemma_walk_found(d, c + 1, c + sc, rest, a1);
        assert(anc3.take(a1.len() as int) == a1);
        assert forall|t: int| anc0.len() <= t < anc3.len() implies #[trigger] anc3[t] >= c by {
            if t == anc0.len() {
                assert(anc3.take(a1.len() as int)[t] == a1[t]);
            }
        }
    }
    assert forall|t: int| lo <= t < c implies (#[trigger] d2[t + 0]).content_type == d[t].content_type && d2[t + 0].content_size == d[t].content_size by {
        if anc3.contains(t) {
            let u = choose|u: int| 0 <= u < anc3.len() && anc3[u] == t;
            if u < anc0.len() {
                assert(anc3.take(anc0.len() as int)[u] == anc0[u]);
            }
        }
        assert(d2[t + 0] == d[t]);
    }
    lemma_wf_shift(d, d2, lo, c, 0);
    assert(!anc3.contains(j)) by {
        if anc3.contains(j) {
            let u = choose|u: int| 0 <= u < anc3.len() && anc3[u] == j;
            if u < anc0.len() {
                assert(anc3.take(anc0.len() as int)[u] == anc0[u]);
            }
        }
    }
    if rest.len() == 0 {
        assert forall|t: int| 0 <= t < s implies (#[trigger] d2[t + j]).content_type == sub[t].content_type && d2[t + j].content_size == sub[t].content_size by {
            if t > 0 {
                assert(d2[t + j] == sub.skip(1)[t - 1]);
            }
        }
        lemma_wf_shift(sub, d2, 0, s, j);
        assert forall|t: int| j + 1 <= t < hi implies (#[trigger] d2[t + k]).content_type == d[t].content_type && d2[t + k].content_size == d[t].content_size by {
            assert(d2[t + k] == d.update(j, d[j])[t]);
        }
        lemma_wf_shift(d, d2, j + 1, hi, k);
        lemma_wf_concat(d2, j, j + s, hi + k);
        lemma_wf_concat(d2, lo, j, hi + k);
    } else {
        let a1 = anc0.push(c);
        assert(anc3[anc0.len() as int] == c) by {
            assert(anc3.take(a1.len() as int)[anc0.len() as int] == a1[anc0.len() as int]);
        }
        assert(anc3.contains(c));
        assert(d[anc3[anc0.len() as int]].content_size + k <= u32::MAX);
        assert(c != j);
        assert(d2[c] == crate::dir::grow(d[c], k));
        assert forall|t: int| 0 <= t < a1.len() implies #[trigger] a1[t] < c + 1 by {}
        lemma_graft_wf(d, c + 1, c + sc, rest, a1, j, anc3, sub, d2);
        assert(wf_window(d2, c + sc + k, c + sc + k));
        assert(wf_window(d2, c, c + sc + k));
        assert forall|t: int| c + sc <= t < hi implies (#[trigger] d2[t + k]).content_type == d[t].content_type && d2[t + k].content_size == d[t].content_size by {
            assert(d2[t + k] == d[t]);
        }
        lemma_wf_shift(d, d2, c + sc, hi, k);
        lemma_wf_concat(d2, c, c + sc + k, hi + k);
        lemma_wf_concat(d2, lo, c, hi + k);
    }
}

/// Moving a subtree keeps a directory well formed.
pub proof fn lemma_move_keeps_wf(d: Seq<Descriptor>, src: Seq<u8>, dst: Seq<u8>, d2: Seq<Descriptor>, r: Result<(), crate::types::ErrorKind>)
    requires
        wf(d),
        moves(d, src, dst, d2, r),
    ensures
        wf(d2),
{
    if r is Ok {
        let w = walk_top(d, src);
        let i = w->Found_0;
        let (d1, sub, d3, d4, j, anc3) = choose|d1: Seq<Descriptor>, sub: Seq<Descriptor>, d3: Seq<Descriptor>, d4: Seq<Descriptor>, j: usize, anc3: Seq<int>| {
            &&& #[trigger] removes(d, src, d1, Some(sub))
            &&& exists|rm: Option<Seq<Descriptor>>| #[trigger] removes(d1, dst, d3, rm)
            &&& #[trigger] creates(d3, dst, d4, Ok(j))
            &&& walk_top(d4, dst) == Walk::Found(j as int, anc3)
            &&& d4[j as int].span() == 1
            &&& fits(d4, anc3, sub.len() - 1)
            &&& d2 == #[trigger] grafted(d4, j as int, anc3, sub)
        };
        let rm = choose|rm: Option<Seq<Descriptor>>| #[trigger] removes(d1, dst, d3, rm);
        lemma_remove_keeps_wf(d, src, d1, Some(sub));
        lemma_remove_keeps_wf(d1, dst, d3, rm);
        lemma_create_keeps_wf(d3, dst, d4, Ok(j));
        crate::dir::lemma_walk_bounds(d, 0, d.len() as int, src, Seq::empty());
        assert(removable(d, i, w->Found_1));
        let s = d[i].span();
        assert(sub == d.subrange(i, i + s));
        lemma_walk_found_tree(d, 0, d.len() as int, src, Seq::empty());
        assert forall|t: int| i <= t < i + s implies (#[trigger] sub[t + (-i)]).content_type == d[t].content_type && sub[t + (-i)].content_size == d[t].content_size by {}
        lemma_wf_shift(d, sub, i, i + s, -i);
        assert(sub.len() == s);
        lemma_graft_wf(d4, 0, d4.len() as int, dst, Seq::empty(), j as int, anc3, sub, d2);
        assert(d2.len() == d4.len() + s - 1);
    }
}

proof fn lemma_sib_named_overwrite(d: Seq<Descriptor>, lo: int, hi: int, i: int, x: Descriptor, n: Seq<u8>)
    requires
        0 <= i < d.len(),
        x.span() == d[i].span(),
        x.name == d[i].name,
    ensures
        sib_named(d.update(i, x), lo, hi, n) == sib_named(d, lo, hi, n),
    decreases hi - lo,
{
    if 0 <= lo < hi <= d.len() && d[lo].span() <= hi - lo {
        lemma_sib_named_overwrite(d, lo + d[lo].span(), hi, i, x, n);
    }
}

/// Overwriting a descriptor with one of the same name and subtree size, and
/// no more a directory than it was, keeps a window's names unique.
proof fn lemma_unique_overwrite(d: Seq<Descriptor>, lo: int, hi: int, i: int, x: Descriptor)
    requires
        unique_window(d, lo, hi),
        0 <= i < d.len(),
        x.span() == d[i].span(),
        x.name == d[i].name,
        x.is_dir_spec() ==> d[i].is_dir_spec(),
    ensures
        unique_window(d.update(i, x), lo, hi),
    decreases hi - lo,
{
    let d2 = d.update(i, x);
    if lo < hi {
        let s = d[lo].span();
        assert(d2[lo].span() == s && d2[lo].name == d[lo].name);
        lemma_sib_named_overwrite(d, lo + s, hi, i, x, d[lo].name@);
        if d[lo].is_dir_spec() {
            lemma_unique_overwrite(d, lo + 1, lo + s, i, x);
        }
        lemma_unique_overwrite(d, lo + s, hi, i, x);
    }
}

/// Linking a path keeps sibling names unique throughout the directory.
pub proof fn lemma_link_keeps_unique(d: Seq<Descriptor>, p: Seq<u8>, src: Descriptor, d2: Seq<Descriptor>, r: Result<usize, crate::types::ErrorKind>)
    requires
        unique(d),
        links(d, p, src, d2, r),
    ensures
        unique(d2),
{
    if !src.is_dir_spec() {
        let (mid, r0) = choose|mid: Seq<Descriptor>, r0: Result<usize, crate::types::ErrorKind>| {
            &&& #[trigger] creates(d, p, mid, r0)
            &&& match r0 {
                Err(e) => r == Err::<usize, crate::types::ErrorKind>(e) && d2 == d,
                Ok(i) => if mid[i as int].is_dir_spec() && mid[i as int].content_size != 0 {
                    r == Err::<usize, crate::types::ErrorKind>(crate::types::ErrorKind::InvalidInput) && d2 == mid
                } else {
                    r == Ok::<usize, crate::types::ErrorKind>(i) && d2 == mid.update(i as int, linked(mid[i as int], src))
                },
            }
        };
        lemma_create_keeps_unique(d, p, mid, r0);
        if r0 is Ok {
            let i = r0->Ok_0;
            crate::dir::lemma_created_in_range(d, p, mid, i);
            if !(mid[i as int].is_dir_spec() && mid[i as int].content_size != 0) {
                lemma_unique_overwrite(mid, 0, mid.len() as int, i as int, linked(mid[i as int], src));
            }
        }
    }
}

/// The subtree that a walk finds in a unique window is unique.
proof fn lemma_walk_found_unique(d: Seq<Descriptor>, lo: int, hi: int, p: Seq<u8>, anc0: Seq<int>)
    requires
        unique_window(d, lo, hi),
        walk(d, lo, hi, p, anc0) is Found,
    ensures
        ({
            let i = walk(d, lo, hi, p, anc0)->Found_0;
            unique_window(d, i, i + d[i].span())
        }),
    decreases p.len(),
{
    lemma_unique_wf(d, lo, hi);
    lemma_walk_found(d, lo, hi, p, anc0);
    let c = find_sib(d, lo, hi, p)->Some_0;
    lemma_found_fits(d, lo, hi, p);
    lemma_unique_split(d, lo, hi, p);
    let rest = name_match(d[c].name@, p)->Some_0;
    let sc = d[c].span();
    assert(unique_window(d, c + sc, c + sc));
    assert(sib_named(d, c + sc, c + sc, d[c].name@) == false);
    if rest.len() != 0 {
        lemma_walk_found_unique(d, c + 1, c + sc, rest, anc0.push(c));
    }
}

proof fn lemma_graft_unique(d: Seq<Descriptor>, lo: int, hi: int, p: Seq<u8>, anc0: Seq<int>, j: int, anc3: Seq<int>, sub: Seq<Descriptor>, d2: Seq<Descriptor>)
    requires
        unique_window(d, lo, hi),
        walk(d, lo, hi, p, anc0) == Walk::Found(j, anc3),
        d[j].span() == 1,
        sub.len() >= 1,
        sub[0].span() == sub.len(),
        unique_window(sub, 0, sub.len() as int),
        fits(d, anc3, sub.len() - 1),
        d2 == grafted(d, j, anc3, sub),
        forall|t: int| 0 <= t < anc0.len() ==> #[trigger] anc0[t] < lo,
    ensures
        unique_window(d2, lo, hi + sub.len() - 1),
    decreases p.len(),
{
    let k = sub.len() - 1;
    let s = sub.len() as int;
    lemma_unique_wf(d, lo, hi);
    lemma_unique_wf(sub, 0, s);
    lemma_graft_wf(d, lo, hi, p, anc0, j, anc3, sub, d2);
    lemma_walk_found(d, lo, hi, p, anc0);
    let c = find_sib(d, lo, hi, p)->Some_0;
    lemma_found_fits(d, lo, hi, p);
    lemma_found_splits(d, lo, hi, p);
    lemma_unique_split(d, lo, hi, p);
    lemma_find_sib_match(d, lo, hi, p);
    let rest = name_match(d[c].name@, p)->Some_0;
    let sc = d[c].span();
    if rest.len() == 0 {
        assert(j == c && anc3 == anc0);
    } else {
        let a1 = anc0.push(c);
        assert(walk(d, lo, hi, p, anc0) == walk(d, c + 1, c + sc, rest, a1));
        lemma_walk_found(d, c + 1, c + sc, rest, a1);
        assert(anc3.take(a1.len() as int) == a1);
        assert forall|t: int| anc0.len() <= t < anc3.len() implies #[trigger] anc3[t] >= c by {
            if t == anc0.len() {
                assert(anc3.take(a1.len() as int)[t] == a1[t]);
            }
        }
    }
    assert forall|t: int| lo <= t < c implies (#[trigger] d2[t]) == d[t] by {
        if anc3.contains(t) {
            let u = choose|u: int| 0 <= u < anc3.len() && anc3[u] == t;
            if u < anc0.len() {
                assert(anc3.take(anc0.len() as int)[u] == anc0[u]);
            }
        }
    }
    assert forall|t: int| lo <= t < c implies (#[trigger] d2[t + 0]).name == d[t].name && d2[t + 0].content_type == d[t].content_type && d2[t + 0].content_size == d[t].content_size by {
        assert(d2[t + 0] == d2[t]);
    }
    lemma_unique_shift(d, d2, lo, c, 0);
    lemma_wf_shift(d, d2, lo, c, 0);
    assert(!anc3.contains(j)) by {
        if anc3.contains(j) {
            let u = choose|u: int| 0 <= u < anc3.len() && anc3[u] == j;
            if u < anc0.len() {
                assert(anc3.take(anc0.len() as int)[u] == anc0[u]);
            }
        }
    }
    if rest.len() == 0 {
        let head = Descriptor { name: d[j].name, ..sub[0] };
        assert(d2[j] == head);
        let sub2 = sub.update(0, head);
        assert(sub2[0].span() == s);
        if sub[0].is_dir_spec() {
            assert forall|t: int| 1 <= t < s implies (#[trigger] sub2[t + 0]).name == sub[t].name && sub2[t + 0].content_type == sub[t].content_type && sub2[t + 0].content_size == sub[t].content_size by {}
            lemma_unique_shift(sub, sub2, 1, s, 0);
        }
        assert(unique_window(sub2, s, s));
        assert forall|t: int| 0 <= t < s implies (#[trigger] d2[t + j]).name == sub2[t].name && d2[t + j].content_type == sub2[t].content_type && d2[t + j].content_size == sub2[t].content_size by {
            if t > 0 {
                assert(d2[t + j] == sub.skip(1)[t - 1]);
            }
        }
        assert(unique_window(sub2, 0, s)) by {
            assert(sub2 == sub.update(0, head));
        }
        lemma_unique_shift(sub2, d2, 0, s, j);
        lemma_unique_wf(sub2, 0, s);
        lemma_wf_shift(sub2, d2, 0, s, j);
        assert forall|t: int| j + 1 <= t < hi implies (#[trigger] d2[t + k]).name == d[t].name && d2[t + k].content_type == d[t].content_type && d2[t + k].content_size == d[t].content_size by {
            assert(d2[t + k] == d[t]);
        }
        lemma_unique_shift(d, d2, j + 1, hi, k);
        lemma_wf_shift(d, d2, j + 1, hi, k);
        lemma_sib_named_shift(d, d2, j + 1, hi, k, d[j].name@);
        assert(unique_window(d2, j + s, j + s));
        assert(unique_window(d2, j, hi + k));
        assert forall|n: Seq<u8>| #[trigger] sib_named(d2, j, hi + k, n) == sib_named(d, j, hi, n) by {
            lemma_sib_named_shift(d, d2, j + 1, hi, k, n);
            lemma_sib_named_split(d2, j, j + s, hi + k, n);
            assert(wf_window(d, j + 1, j + 1));
            lemma_sib_named_split(d, j, j + 1, hi, n);
        }
        lemma_apart_shift(d, d2, lo, j, hi, j, hi + k);
        lemma_unique_concat(d2, lo, j, hi + k);
    } else {
        let a1 = anc0.push(c);
        assert(anc3[anc0.len() as int] == c) by {
            assert(anc3.take(a1.len() as int)[anc0.len() as int] == a1[anc0.len() as int]);
        }
        assert(anc3.contains(c));
        assert(d[anc3[anc0.len() as int]].content_size + k <= u32::MAX);
        assert(c != j);
        assert(d2[c] == crate::dir::grow(d[c], k));
        assert forall|t: int| 0 <= t < a1.len() implies #[trigger] a1[t] < c + 1 by {}
        lemma_graft_unique(d, c + 1, c + sc, rest, a1, j, anc3, sub, d2);
        lemma_graft_wf(d, c + 1, c + sc, rest, a1, j, anc3, sub, d2);
        lemma_unique_wf(d, c, hi);
        assert forall|t: int| c + sc <= t < hi implies (#[trigger] d2[t + k]).name == d[t].name && d2[t + k].content_type == d[t].content_type && d2[t + k].content_size == d[t].content_size by {
            assert(d2[t + k] == d[t]);
        }
        lemma_unique_shift(d, d2, c + sc, hi, k);
        lemma_wf_shift(d, d2, c + sc, hi, k);
        lemma_sib_named_shift(d, d2, c + sc, hi, k, d[c].name@);
        assert(wf_window(d2, c + sc + k, c + sc + k));
        assert(wf_window(d2, c, c + sc + k));
        assert(wf_window(d, c + sc, c + sc));
        assert(wf_window(d, c, c + sc));
        assert(unique_window(d2, c, hi + k));
        assert forall|n: Seq<u8>| #[trigger] sib_named(d2, c, hi + k, n) == sib_named(d, c, hi, n) by {
            lemma_sib_named_shift(d, d2, c + sc, hi, k, n);
            lemma_sib_named_split(d2, c, c + sc + k, hi + k, n);
            lemma_sib_named_split(d, c, c + sc, hi, n);
        }
        lemma_apart_shift(d, d2, lo, c, hi, c, hi + k);
        lemma_unique_concat(d2, lo, c, hi + k);
    }
}

/// Moving a subtree keeps sibling names unique throughout the directory.
pub proof fn lemma_move_keeps_unique(d: Seq<Descriptor>, src: Seq<u8>, dst: Seq<u8>, d2: Seq<Descriptor>, r: Result<(), crate::types::ErrorKind>)
    requires
        unique(d),
        moves(d, src, dst, d2, r),
    ensures
        unique(d2),
{
    if r is Ok {
        let w = walk_top(d, src);
        let i = w->Found_0;
        let (d1, sub, d3, d4, j, anc3) = choose|d1: Seq<Descriptor>, sub: Seq<Descriptor>, d3: Seq<Descriptor>, d4: Seq<Descriptor>, j: usize, anc3: Seq<int>| {
            &&& #[trigger] removes(d, src, d1, Some(sub))
            &&& exists|rm: Option<Seq<Descriptor>>| #[trigger] removes(d1, dst, d3, rm)
            &&& #[trigger] creates(d3, dst, d4, Ok(j))
            &&& walk_top(d4, dst) == Walk::Found(j as int, anc3)
            &&& d4[j as int].span() == 1
            &&& fits(d4, anc3, sub.len() - 1)
            &&& d2 == #[trigger] grafted(d4, j as int, anc3, sub)
        };
        let rm = choose|rm: Option<Seq<Descriptor>>| #[trigger] removes(d1, dst, d3, rm);
        lemma_remove_keeps_unique(d, src, d1, Some(sub));
        lemma_remove_keeps_unique(d1, dst, d3, rm);
        lemma_create_keeps_unique(d3, dst, d4, Ok(j));
        crate::dir::lemma_walk_bounds(d, 0, d.len() as int, src, Seq::empty());
        assert(removable(d, i, w->Found_1));
        let s = d[i].span();
        assert(sub == d.subrange(i, i + s));
        assert(sub.len() == s);
        lemma_walk_found_unique(d, 0, d.len() as int, src, Seq::empty());
        assert forall|t: int| i <= t < i + s implies (#[trigger] sub[t + (-i)]).name == d[t].name && sub[t + (-i)].content_type == d[t].content_type && sub[t + (-i)].content_size == d[t].content_size by {}
        lemma_unique_shift(d, sub, i, i + s, -i);
        lemma_unique_wf(d4, 0, d4.len() as int);
        lemma_unique_wf(sub, 0, s);
        lemma_graft_unique(d4, 0, d4.len() as int, dst, Seq::empty(), j as int, anc3, sub, d2);
        lemma_graft_wf(d4, 0, d4.len() as int, dst, Seq::empty(), j as int, anc3, sub, d2);
    }
}

} // verus!
