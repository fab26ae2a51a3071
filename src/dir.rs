use vstd::prelude::*;
use vstd::slice::slice_subrange;
use crate::types::{Descriptor, ErrorKind, Section, empty_section, first_nul};

verus! {

/// `/` and, for tolerance of foreign input, `\`.
pub open spec fn is_sep(b: u8) -> bool {
    b == 47u8 || b == 92u8
}

/// Where `p` continues after a leading segment equal to `name` and its
/// separator; `None` when the leading segment is not `name`.
pub open spec fn name_match(name: Seq<u8>, p: Seq<u8>) -> Option<Seq<u8>> {
    if name.len() <= p.len() && p.take(name.len() as int) == name && (name.len() == p.len() || is_sep(
        p[name.len() as int],
    )) {
        Some(if name.len() == p.len() { Seq::empty() } else { p.skip(name.len() + 1int) })
    } else {
        None
    }
}

/// The first sibling of the window `[lo, hi)` whose name leads `p`.
pub open spec fn find_sib(d: Seq<Descriptor>, lo: int, hi: int, p: Seq<u8>) -> Option<int>
    decreases hi - lo,
{
    if lo < 0 || hi > d.len() || lo >= hi {
        None
    } else if name_match(d[lo].name@, p) is Some {
        Some(lo)
    } else if d[lo].span() > hi - lo {
        None
    } else {
        find_sib(d, lo + d[lo].span(), hi, p)
    }
}

/// The outcome of following a path down the directory.
pub enum Walk {
    /// The path names the descriptor at `index`, below the given directories.
    Found(int, Seq<int>),
    /// A segment other than the last names the file (or unusable directory)
    /// at `index`, below the given directories.
    Blocked(int, Seq<int>),
    /// The remaining path `rest` has no first segment inside the window that
    /// ends at `at`, the end of the innermost directory reached.
    Missing(int, Seq<int>, Seq<u8>),
}

/// Follows `p` from the window `[lo, hi)`, having passed the directories `anc`.
pub open spec fn walk(d: Seq<Descriptor>, lo: int, hi: int, p: Seq<u8>, anc: Seq<int>) -> Walk
    decreases p.len(),
{
    match find_sib(d, lo, hi, p) {
        None => Walk::Missing(hi, anc, p),
        Some(i) => {
            let rest = name_match(d[i].name@, p)->Some_0;
            if rest.len() == 0 {
                Walk::Found(i, anc)
            } else if d[i].is_dir_spec() && rest.len() < p.len() && d[i].span() <= hi - i {
                walk(d, i + 1, i + d[i].span(), rest, anc.push(i))
            } else {
                Walk::Blocked(i, anc)
            }
        }
    }
}

/// Follows `p` from the top of the directory.
pub open spec fn walk_top(d: Seq<Descriptor>, p: Seq<u8>) -> Walk {
    walk(d, 0, d.len() as int, p, Seq::empty())
}

/// The index of the descriptor that `p` names.
pub open spec fn find_path(d: Seq<Descriptor>, p: Seq<u8>) -> Option<int> {
    match walk_top(d, p) {
        Walk::Found(i, _) => Some(i),
        _ => None,
    }
}

pub open spec fn ints(a: Seq<usize>) -> Seq<int> {
    Seq::new(a.len(), |k: int| a[k] as int)
}

pub proof fn lemma_find_sib_match(d: Seq<Descriptor>, lo: int, hi: int, p: Seq<u8>)
    requires
        find_sib(d, lo, hi, p) is Some,
    ensures
        ({
            let i = find_sib(d, lo, hi, p)->Some_0;
            lo <= i < hi && name_match(d[i].name@, p) is Some
        }),
    decreases hi - lo,
{
    if lo < 0 || hi > d.len() || lo >= hi {
    } else if name_match(d[lo].name@, p) is Some {
    } else if d[lo].span() > hi - lo {
    } else {
        lemma_find_sib_match(d, lo + d[lo].span(), hi, p);
    }
}

/// Strictly increasing indices, all below `bound`.
pub open spec fn increasing_below(a: Seq<usize>, bound: int) -> bool {
    &&& forall|k: int| 0 <= k < a.len() ==> a[k] < bound
    &&& forall|k1: int, k2: int| 0 <= k1 < k2 < a.len() ==> a[k1] < a[k2]
}

/// A walk that starts inside the directory stays inside it.
pub proof fn lemma_walk_bounds(d: Seq<Descriptor>, lo: int, hi: int, p: Seq<u8>, anc: Seq<int>)
    requires
        0 <= lo <= hi <= d.len(),
    ensures
        walk(d, lo, hi, p, anc) matches Walk::Missing(at, _, _) ==> lo <= at <= hi,
        walk(d, lo, hi, p, anc) matches Walk::Found(i, _) ==> lo <= i < hi,
    decreases p.len(),
{
    match find_sib(d, lo, hi, p) {
        None => {},
        Some(i) => {
            lemma_find_sib_match(d, lo, hi, p);
            let rest = name_match(d[i].name@, p)->Some_0;
            if rest.len() != 0 && d[i].is_dir_spec() && rest.len() < p.len() && d[i].span() <= hi - i {
                lemma_walk_bounds(d, i + 1, i + d[i].span(), rest, anc.push(i));
            }
        },
    }
}

/// A walk that ends at an index passes only directories before it.
pub proof fn lemma_walk_bounds_from(d: Seq<Descriptor>, lo: int, hi: int, p: Seq<u8>, anc: Seq<int>)
    ensures
        walk(d, lo, hi, p, anc) matches Walk::Found(i, _) ==> lo <= i,
    decreases p.len(),
{
    match find_sib(d, lo, hi, p) {
        None => {},
        Some(i) => {
            lemma_find_sib_match(d, lo, hi, p);
            let rest = name_match(d[i].name@, p)->Some_0;
            if rest.len() != 0 && d[i].is_dir_spec() && rest.len() < p.len() && d[i].span() <= hi - i {
                lemma_walk_bounds_from(d, i + 1, i + d[i].span(), rest, anc.push(i));
            }
        },
    }
}

/// The index that a successful creation gives lies inside the new directory.
pub proof fn lemma_created_in_range(d: Seq<Descriptor>, p: Seq<u8>, d2: Seq<Descriptor>, i: usize)
    requires
        creates(d, p, d2, Ok(i)),
    ensures
        (i as int) < d2.len(),
{
    lemma_walk_bounds(d, 0, d.len() as int, p, Seq::empty());
    match walk_top(d, p) {
        Walk::Missing(at, anc, rest) => {
            lemma_chain_nonempty(rest);
        },
        _ => {},
    }
}

/// Two chains for the same names are the same descriptors.
pub proof fn lemma_chain_unique(c1: Seq<Descriptor>, c2: Seq<Descriptor>, names: Seq<Seq<u8>>)
    requires
        is_chain(c1, names),
        is_chain(c2, names),
    ensures
        c1 == c2,
{
    assert forall|j: int| 0 <= j < c1.len() implies c1[j] == c2[j] by {
        let n = names[j];
        assert forall|t: int| 0 <= t < 16 implies c1[j].name.bytes[t] == c2[j].name.bytes[t] by {
            if t < n.len() {
                assert(c1[j].name.bytes@.take(n.len() as int)[t] == c2[j].name.bytes@.take(n.len() as int)[t]);
            }
        }
        assert(c1[j].name.bytes =~= c2[j].name.bytes);
    }
    assert(c1 =~= c2);
}

/// Creating a path has one outcome.
pub proof fn lemma_creates_unique(d: Seq<Descriptor>, p: Seq<u8>, x1: Seq<Descriptor>, r1: Result<usize, ErrorKind>, x2: Seq<Descriptor>, r2: Result<usize, ErrorKind>)
    requires
        creates(d, p, x1, r1),
        creates(d, p, x2, r2),
    ensures
        x1 == x2,
        r1 == r2,
{
    match walk_top(d, p) {
        Walk::Missing(at, anc, rest) => {
            match chain_names(rest) {
                Some(names) => {
                    if fits(d, anc, names.len() as int) {
                        let k = names.len() as int;
                        lemma_chain_unique(x1.subrange(at, at + k), x2.subrange(at, at + k), names);
                    }
                },
                None => {},
            }
        },
        _ => {},
    }
}

/// What `locate` found, in executable form.
pub enum Located {
    Found(usize, Vec<usize>),
    Blocked(usize, Vec<usize>),
    Missing(usize, Vec<usize>, usize),
}

impl Located {
    /// The executable outcome agrees with the walk of `p`; a missing rest is
    /// given by where it starts in `p`.
    pub open spec fn agrees(&self, w: Walk, p: Seq<u8>) -> bool {
        match (*self, w) {
            (Located::Found(i, a), Walk::Found(j, b)) => i as int == j && ints(a@) == b,
            (Located::Blocked(i, a), Walk::Blocked(j, b)) => i as int == j && ints(a@) == b,
            (Located::Missing(at, a, pos), Walk::Missing(at2, b, rest)) => {
                &&& at as int == at2
                &&& ints(a@) == b
                &&& pos <= p.len()
                &&& p.skip(pos as int) == rest
            },
            _ => false,
        }
    }
}

/// The index just past the subtree of `desc` at index `i`, or `end` when that
/// subtree would run past it.
pub fn next_sibling(desc: &Descriptor, i: usize, end: usize) -> (r: usize)
    requires
        i < end,
    ensures
        r == if desc.span() <= end - i { i + desc.span() } else { end as int },
{
    if desc.content_type != 0 {
        i + 1
    } else if desc.content_size as u64 >= (end - i) as u64 {
        end
    } else {
        i + 1 + desc.content_size as usize
    }
}

/// Where `path[pos..]` continues after a leading segment equal to the name.
pub fn match_name_at(desc: &Descriptor, path: &[u8], pos: usize) -> (r: Option<usize>)
    requires
        pos <= path@.len(),
    ensures
        r is None <==> name_match(desc.name@, path@.skip(pos as int)) is None,
        r matches Some(q) ==> pos <= q <= path@.len() && path@.skip(q as int) == name_match(
            desc.name@,
            path@.skip(pos as int),
        )->Some_0,
{
    let ghost p = path@.skip(pos as int);
    let ghost name = desc.name@;
    let n = desc.name.len();
    let plen = path.len();
    assert(name.len() == n);
    if n > path.len() - pos {
        return None;
    }
    let mut k: usize = 0;
    while k < n
        invariant
            k <= n <= 16,
            n == first_nul(desc.name.bytes@, 0),
            plen == path@.len(),
            n <= path@.len() - pos,
            p == path@.skip(pos as int),
            name == desc.name@,
            name.len() == n,
            forall|t: int| 0 <= t < k ==> p[t] == name[t],
        decreases n - k,
    {
        if desc.name.bytes[k] != path[pos + k] {
            assert(name == desc.name.bytes@.take(n as int));
            assert(name[k as int] == desc.name.bytes@[k as int]);
            assert(p[k as int] == path@[pos + k]);
            assert(p.take(n as int)[k as int] != name[k as int]);
            return None;
        }
        assert(name == desc.name.bytes@.take(n as int));
        assert(name[k as int] == desc.name.bytes@[k as int]);
        assert(p[k as int] == path@[pos + k]);
        k = k + 1;
    }
    assert(p.take(n as int) =~= name);
    if n == path.len() - pos {
        assert(path@.skip(path@.len() as int) =~= Seq::<u8>::empty());
        Some(path.len())
    } else if path[pos + n] == 47u8 || path[pos + n] == 92u8 {
        assert(path@.skip(pos + n + 1) =~= p.skip(n + 1));
        Some(pos + n + 1)
    } else {
        None
    }
}

/// The part of `path` after its leading segment, when that segment equals the
/// descriptor's name.
pub fn name_eq<'a>(desc: &Descriptor, path: &'a [u8]) -> (r: Option<&'a [u8]>)
    ensures
        r is None <==> name_match(desc.name@, path@) is None,
        r matches Some(s) ==> s@ == name_match(desc.name@, path@)->Some_0,
{
    assert(path@.skip(0) =~= path@);
    match match_name_at(desc, path, 0) {
        None => None,
        Some(q) => Some(slice_subrange(path, q, path.len())),
    }
}

/// The first sibling of `[lo, hi)` whose name leads `path[pos..]`.
pub fn find_sibling(d: &[Descriptor], lo: usize, hi: usize, path: &[u8], pos: usize) -> (r: Option<usize>)
    requires
        lo <= hi <= d@.len(),
        pos <= path@.len(),
    ensures
        r matches Some(i) ==> lo <= i < hi,
        match r {
            Some(i) => find_sib(d@, lo as int, hi as int, path@.skip(pos as int)) == Some(i as int),
            None => find_sib(d@, lo as int, hi as int, path@.skip(pos as int)) is None,
        },
{
    let ghost p = path@.skip(pos as int);
    let mut i = lo;
    while i < hi
        invariant
            lo <= i <= hi <= d@.len(),
            p == path@.skip(pos as int),
            pos <= path@.len(),
            find_sib(d@, lo as int, hi as int, p) == find_sib(d@, i as int, hi as int, p),
        decreases hi - i,
    {
        match match_name_at(&d[i], path, pos) {
            Some(_) => {
                return Some(i);
            },
            None => {},
        }
        if d[i].content_type == 0 && d[i].content_size as u64 >= (hi - i) as u64 {
            return None;
        }
        i = next_sibling(&d[i], i, hi);
    }
    None
}

/// Follows `path` down the directory.
pub fn locate(d: &[Descriptor], path: &[u8]) -> (r: Located)
    ensures
        r.agrees(walk_top(d@, path@), path@),
        match r {
            Located::Found(i, a) => i < d@.len() && increasing_below(a@, i as int),
            Located::Missing(at, a, _) => at <= d@.len() && increasing_below(a@, at as int),
            Located::Blocked(i, a) => i < d@.len() && increasing_below(a@, i as int),
        },
{
    let mut lo: usize = 0;
    let mut hi: usize = d.len();
    let mut pos: usize = 0;
    let mut anc: Vec<usize> = Vec::new();
    assert(path@.skip(0) =~= path@);
    assert(ints(anc@) =~= Seq::<int>::empty());
    loop
        invariant
            lo <= hi <= d@.len(),
            pos <= path@.len(),
            walk_top(d@, path@) == walk(d@, lo as int, hi as int, path@.skip(pos as int), ints(anc@)),
            increasing_below(anc@, lo as int),
        decreases path@.len() - pos,
    {
        let ghost p = path@.skip(pos as int);
        match find_sibling(d, lo, hi, path, pos) {
            None => {
                return Located::Missing(hi, anc, pos);
            },
            Some(i) => {
                proof {
                    lemma_find_sib_match(d@, lo as int, hi as int, p);
                }
                let q = match_name_at(&d[i], path, pos);
                let q = match q {
                    Some(q) => q,
                    None => {
                        return Located::Blocked(i, anc);
                    },
                };
                let ghost rest = name_match(d@[i as int].name@, p)->Some_0;
                assert(rest == path@.skip(q as int));
                if q == path.len() {
                    assert(rest.len() == 0);
                    return Located::Found(i, anc);
                }
                assert(rest.len() == path@.len() - q);
                if d[i].content_type == 0 && q > pos && (d[i].content_size as u64) < (hi - i) as u64 {
                    let ghost old_anc = anc@;
                    anc.push(i);
                    assert(ints(anc@) =~= ints(old_anc).push(i as int));
                    lo = i + 1;
                    hi = i + 1 + d[i].content_size as usize;
                    pos = q;
                } else {
                    return Located::Blocked(i, anc);
                }
            },
        }
    }
}

/// The window of the subtree that `path` names; empty when it names nothing.
pub fn find<'a>(d: &'a [Descriptor], path: &[u8]) -> (r: &'a [Descriptor])
    ensures
        match find_path(d@, path@) {
            Some(i) => i + d@[i].span() <= d@.len() ==> r@ == d@.subrange(i, i + d@[i].span()),
            None => r@.len() == 0,
        },
{
    match locate(d, path) {
        Located::Found(i, _) => {
            let end = next_sibling(&d[i], i, d.len());
            slice_subrange(d, i, end)
        },
        _ => slice_subrange(d, 0, 0),
    }
}

/// The descriptor that `path` names.
pub fn find_desc<'a>(d: &'a [Descriptor], path: &[u8]) -> (r: Option<&'a Descriptor>)
    ensures
        match find_path(d@, path@) {
            Some(i) => r == Some(&d@[i]),
            None => r is None,
        },
{
    match locate(d, path) {
        Located::Found(i, _) => Some(&d[i]),
        _ => None,
    }
}

/// The file descriptor that `path` names; directories are not files.
pub fn find_file<'a>(d: &'a [Descriptor], path: &[u8]) -> (r: Option<&'a Descriptor>)
    ensures
        match find_path(d@, path@) {
            Some(i) => if d@[i].is_dir_spec() { r is None } else { r == Some(&d@[i]) },
            None => r is None,
        },
{
    match locate(d, path) {
        Located::Found(i, _) => {
            if d[i].is_dir() {
                None
            } else {
                Some(&d[i])
            }
        },
        _ => None,
    }
}

/// Position of the first separator in `p` at or after `i`, or its length.
pub open spec fn seg_end(p: Seq<u8>, i: int) -> int
    decreases p.len() - i,
{
    if i < 0 {
        0
    } else if i >= p.len() || is_sep(p[i]) {
        i
    } else {
        seg_end(p, i + 1)
    }
}

/// A name that a descriptor can hold: one to `NAME_LEN` bytes, none of them NUL.
pub open spec fn valid_name(n: Seq<u8>) -> bool {
    &&& 0 < n.len() <= 16
    &&& forall|k: int| 0 <= k < n.len() ==> n[k] != 0
}

/// The names of the directories that creating `p` adds below the place where
/// its first segment is missing; `None` when a segment cannot be a name.
pub open spec fn chain_names(p: Seq<u8>) -> Option<Seq<Seq<u8>>>
    decreases p.len(),
{
    let n = seg_end(p, 0);
    let head = p.take(n);
    if n <= 0 || n > p.len() || !valid_name(head) {
        None
    } else if n + 1 >= p.len() {
        Some(seq![head])
    } else {
        match chain_names(p.skip(n + 1)) {
            None => None,
            Some(t) => Some(seq![head] + t),
        }
    }
}

/// `c` is the chain of nested, otherwise empty directories named `names`.
pub open spec fn is_chain(c: Seq<Descriptor>, names: Seq<Seq<u8>>) -> bool {
    &&& c.len() == names.len()
    &&& forall|j: int|
        0 <= j < c.len() ==> {
            &&& (#[trigger] c[j]).name.holds(names[j])
            &&& c[j].content_type == 0
            &&& c[j].content_size == c.len() - 1 - j
            &&& c[j].section == empty_section()
        }
}

/// `x` with `k` more descendants.
pub open spec fn grow(x: Descriptor, k: int) -> Descriptor {
    Descriptor { content_size: (x.content_size + k) as u32, ..x }
}

/// `d` with `c` inserted at `at` and every directory of `anc` grown by its length.
pub open spec fn inserted(d: Seq<Descriptor>, at: int, anc: Seq<int>, c: Seq<Descriptor>) -> Seq<Descriptor> {
    Seq::new(
        (d.len() + c.len()) as nat,
        |t: int|
            if t < at {
                if anc.contains(t) { grow(d[t], c.len() as int) } else { d[t] }
            } else if t < at + c.len() {
                c[t - at]
            } else {
                d[t - c.len()]
            },
    )
}

/// Every directory of `anc` can count `k` more descendants.
pub open spec fn fits(d: Seq<Descriptor>, anc: Seq<int>, k: int) -> bool {
    &&& k <= u32::MAX
    &&& d.len() + k <= usize::MAX
    &&& forall|t: int| 0 <= t < anc.len() ==> d[anc[t]].content_size + k <= u32::MAX
}

/// What creating `p` does to `d`: the new directory and the index of the
/// descriptor that `p` names, or the error.
pub open spec fn creates(d: Seq<Descriptor>, p: Seq<u8>, d2: Seq<Descriptor>, r: Result<usize, ErrorKind>) -> bool {
    match walk_top(d, p) {
        Walk::Found(i, _) => r == Ok::<usize, ErrorKind>(i as usize) && d2 == d,
        Walk::Blocked(_, _) => r == Err::<usize, ErrorKind>(ErrorKind::InvalidInput) && d2 == d,
        Walk::Missing(at, anc, rest) => match chain_names(rest) {
            Some(names) => if fits(d, anc, names.len() as int) {
                &&& r == Ok::<usize, ErrorKind>((at + names.len() - 1) as usize)
                &&& is_chain(d2.subrange(at, at + names.len()), names)
                &&& d2 == inserted(d, at, anc, d2.subrange(at, at + names.len()))
            } else {
                r == Err::<usize, ErrorKind>(ErrorKind::InvalidInput) && d2 == d
            },
            None => r == Err::<usize, ErrorKind>(ErrorKind::InvalidInput) && d2 == d,
        },
    }
}

/// The end of the segment of `path` that starts at `pos`.
fn segment_end(path: &[u8], pos: usize) -> (r: usize)
    requires
        pos <= path@.len(),
    ensures
        pos <= r <= path@.len(),
        r == seg_end(path@, pos as int),
{
    let mut e = pos;
    while e < path.len() && path[e] != 47u8 && path[e] != 92u8
        invariant
            pos <= e <= path@.len(),
            seg_end(path@, pos as int) == seg_end(path@, e as int),
        decreases path@.len() - e,
    {
        e = e + 1;
    }
    e
}

proof fn lemma_seg_end_shift(p: Seq<u8>, pos: int, i: int)
    requires
        0 <= pos <= i <= p.len(),
    ensures
        seg_end(p.skip(pos), i - pos) == seg_end(p, i) - pos,
    decreases p.len() - i,
{
    if i < p.len() && !is_sep(p[i]) {
        lemma_seg_end_shift(p, pos, i + 1);
    }
}

proof fn lemma_seg_end_bounds(p: Seq<u8>, i: int)
    requires
        0 <= i <= p.len(),
    ensures
        i <= seg_end(p, i) <= p.len(),
    decreases p.len() - i,
{
    if i < p.len() && !is_sep(p[i]) {
        lemma_seg_end_bounds(p, i + 1);
    }
}

pub proof fn lemma_chain_nonempty(p: Seq<u8>)
    requires
        chain_names(p) is Some,
    ensures
        chain_names(p)->Some_0.len() >= 1,
{
}

pub open spec fn prepend(acc: Seq<Seq<u8>>, o: Option<Seq<Seq<u8>>>) -> Option<Seq<Seq<u8>>> {
    match o {
        None => None,
        Some(t) => Some(acc + t),
    }
}

/// The chain of directories named by the segments of `path[pos..]`.
fn make_chain(path: &[u8], pos: usize) -> (r: Option<Vec<Descriptor>>)
    requires
        pos <= path@.len(),
    ensures
        match chain_names(path@.skip(pos as int)) {
            None => r is None,
            Some(names) => if names.len() <= u32::MAX {
                r matches Some(c) && is_chain(c@, names)
            } else {
                r is None
            },
        },
{
    let mut c: Vec<Descriptor> = Vec::new();
    let ghost mut acc: Seq<Seq<u8>> = Seq::empty();
    let mut q = pos;
    loop
        invariant_except_break
            chain_names(path@.skip(pos as int)) == prepend(acc, chain_names(path@.skip(q as int))),
        invariant
            pos <= q <= path@.len(),
            c@.len() == acc.len(),
            forall|j: int| 0 <= j < c@.len() ==> {
                &&& (#[trigger] c@[j]).name.holds(acc[j])
                &&& c@[j].content_type == 0
                &&& c@[j].section == empty_section()
            },
        ensures
            chain_names(path@.skip(pos as int)) == Some(acc),
        decreases path@.len() - q,
    {
        let ghost p = path@.skip(q as int);
        let e = segment_end(path, q);
        proof {
            lemma_seg_end_shift(path@, q as int, q as int);
            lemma_seg_end_bounds(p, 0);
        }
        let ghost head = p.take(e - q);
        assert(head =~= path@.subrange(q as int, e as int));
        if e == q || e - q > 16 {
            assert(!valid_name(head));
            assert(chain_names(p) is None);
            return None;
        }
        let mut k = q;
        while k < e
            invariant
                q <= k <= e <= path@.len(),
                head == path@.subrange(q as int, e as int),
                head == p.take(e - q),
                p == path@.skip(q as int),
                e - q == seg_end(p, 0),
                0 < e - q <= 16,
                chain_names(path@.skip(pos as int)) == prepend(acc, chain_names(p)),
                forall|t: int| q <= t < k ==> path@[t] != 0,
            decreases e - k,
        {
            if path[k] == 0 {
                assert(head[k - q] == 0);
                assert(!valid_name(head));
                assert(chain_names(p) is None);
                return None;
            }
            k = k + 1;
        }
        assert(valid_name(head));
        let seg = slice_subrange(path, q, e);
        let desc = Descriptor::dir(seg, 0);
        assert(seg@.take(seg@.len() as int) =~= head);
        c.push(desc);
        proof {
            acc = acc.push(head);
        }
        if e >= path.len() - 1 {
            assert(chain_names(p) == Some(seq![head]));
            assert(acc =~= acc.drop_last() + seq![head]);
            break;
        }
        assert(p.skip(e - q + 1) =~= path@.skip(e + 1));
        assert(acc.drop_last() + (seq![head] + chain_names(path@.skip(e + 1))->Some_0) =~= acc
            + chain_names(path@.skip(e + 1))->Some_0) by {
            if chain_names(path@.skip(e + 1)) is Some {
                assert(acc.drop_last() + (seq![head] + chain_names(path@.skip(e + 1))->Some_0) =~= acc
                    + chain_names(path@.skip(e + 1))->Some_0);
            }
        }
        q = e + 1;
    }
    let ghost names = acc;
    if c.len() > u32::MAX as usize {
        return None;
    }
    let n = c.len();
    let mut j: usize = 0;
    while j < n
        invariant
            n == c@.len() == names.len(),
            n <= u32::MAX,
            j <= n,
            forall|t: int| 0 <= t < n ==> {
                &&& (#[trigger] c@[t]).name.holds(names[t])
                &&& c@[t].content_type == 0
                &&& c@[t].section == empty_section()
            },
            forall|t: int| 0 <= t < j ==> (#[trigger] c@[t]).content_size == n - 1 - t,
        decreases n - j,
    {
        let mut x = c[j];
        x.content_size = (n - 1 - j) as u32;
        c.set(j, x);
        j = j + 1;
    }
    Some(c)
}

/// Creates the descriptor that `path` names, adding every missing directory on
/// the way at the end of its parent, and returns its index. A new descriptor
/// is an empty directory; an existing one is returned as it is.
///
/// Fails with `InvalidInput` when a segment before the last names a file, when
/// a segment to add is not a valid name, or when a count would overflow.
pub fn create(d: &mut Vec<Descriptor>, path: &[u8]) -> (r: Result<usize, ErrorKind>)
    ensures
        creates(old(d)@, path@, final(d)@, r),
        r matches Ok(i) ==> i < final(d)@.len(),
{
    let loc = locate(d.as_slice(), path);
    match loc {
        Located::Found(i, _) => Ok(i),
        Located::Blocked(_, _) => Err(ErrorKind::InvalidInput),
        Located::Missing(at, anc, pos) => {
            let chain = match make_chain(path, pos) {
                Some(c) => c,
                None => {
                    return Err(ErrorKind::InvalidInput);
                },
            };
            let k = chain.len();
            let ghost names = chain_names(path@.skip(pos as int))->Some_0;
            let ghost ganc = ints(anc@);
            assert(names.len() >= 1);
            assert(names.len() == k);
            assert(walk_top(d@, path@) == Walk::Missing(at as int, ganc, path@.skip(pos as int)));
            if k > usize::MAX - d.len() {
                return Err(ErrorKind::InvalidInput);
            }
            let mut t: usize = 0;
            while t < anc.len()
                invariant
                    t <= anc@.len(),
                    increasing_below(anc@, at as int),
                    at <= d@.len(),
                    k <= u32::MAX,
                    d@.len() + k <= usize::MAX,
                    forall|s: int| 0 <= s < t ==> d@[ganc[s]].content_size + k <= u32::MAX,
                    ganc == ints(anc@),
                    d@ == old(d)@,
                    walk_top(d@, path@) == Walk::Missing(at as int, ganc, path@.skip(pos as int)),
                    chain_names(path@.skip(pos as int)) == Some(names),
                    names.len() == k,
                decreases anc@.len() - t,
            {
                assert(ganc[t as int] == anc@[t as int] as int);
                if d[anc[t]].content_size as u64 + k as u64 > u32::MAX as u64 {
                    assert(!fits(d@, ganc, k as int));
                    return Err(ErrorKind::InvalidInput);
                }
                t = t + 1;
            }
            assert(fits(d@, ganc, k as int));
            let ghost orig = d@;
            assert forall|u: int| 0 <= u < anc@.len() implies d@[anc@[u] as int].content_size + k as u32 <= u32::MAX by {
                assert(ganc[u] == anc@[u] as int);
            }
            resize_ancestors(d, &anc, k as u32, true);
            let ghost grown = d@;
            let mut j: usize = 0;
            while j < k
                invariant
                    j <= k == chain@.len(),
                    k >= 1,
                    at <= grown.len(),
                    grown.len() + k <= usize::MAX,
                    d@ =~= grown.take(at as int) + chain@.take(j as int) + grown.skip(at as int),
                decreases k - j,
            {
                d.insert(at + j, chain[j]);
                assert(chain@.take(j + 1) =~= chain@.take(j as int).push(chain@[j as int]));
                j = j + 1;
            }
            assert(chain@.take(k as int) =~= chain@);
            assert(d@.subrange(at as int, at + k) =~= chain@);
            assert(d@ =~= inserted(orig, at as int, ganc, chain@));
            Ok(at + k - 1)
        },
    }
}

/// `x` with `k` fewer descendants.
pub open spec fn shrink(x: Descriptor, k: int) -> Descriptor {
    Descriptor { content_size: (x.content_size - k) as u32, ..x }
}

/// `d` without the `s` descriptors at `i`, every directory of `anc` shrunk by `s`.
pub open spec fn cut(d: Seq<Descriptor>, i: int, s: int, anc: Seq<int>) -> Seq<Descriptor> {
    Seq::new(
        (d.len() - s) as nat,
        |t: int|
            if t < i {
                if anc.contains(t) { shrink(d[t], s) } else { d[t] }
            } else {
                d[t + s]
            },
    )
}

/// The subtree at `i` lies inside the directory and inside each of `anc`.
pub open spec fn removable(d: Seq<Descriptor>, i: int, anc: Seq<int>) -> bool {
    &&& i + d[i].span() <= d.len()
    &&& forall|t: int| 0 <= t < anc.len() ==> d[anc[t]].content_size >= d[i].span()
}

/// What removing `p` does to `d`: the new directory and the removed subtree.
pub open spec fn removes(d: Seq<Descriptor>, p: Seq<u8>, d2: Seq<Descriptor>, r: Option<Seq<Descriptor>>) -> bool {
    match walk_top(d, p) {
        Walk::Found(i, anc) => if removable(d, i, anc) {
            r == Some(d.subrange(i, i + d[i].span())) && d2 == cut(d, i, d[i].span(), anc)
        } else {
            r is None && d2 == d
        },
        _ => r is None && d2 == d,
    }
}

pub open spec fn opt_view(r: Option<Vec<Descriptor>>) -> Option<Seq<Descriptor>> {
    match r {
        Some(v) => Some(v@),
        None => None,
    }
}

/// Grows (or shrinks) by `k` each directory whose index is in `anc`.
fn resize_ancestors(d: &mut Vec<Descriptor>, anc: &Vec<usize>, k: u32, add: bool)
    requires
        increasing_below(anc@, old(d)@.len() as int),
        forall|t: int|
            0 <= t < anc@.len() ==> if add {
                old(d)@[anc@[t] as int].content_size + k <= u32::MAX
            } else {
                old(d)@[anc@[t] as int].content_size >= k
            },
    ensures
        final(d)@.len() == old(d)@.len(),
        forall|x: int|
            0 <= x < old(d)@.len() ==> #[trigger] final(d)@[x] == if ints(anc@).contains(x) {
                if add { grow(old(d)@[x], k as int) } else { shrink(old(d)@[x], k as int) }
            } else {
                old(d)@[x]
            },
{
    let ghost orig = d@;
    let ghost ganc = ints(anc@);
    let mut t: usize = 0;
    while t < anc.len()
        invariant
            t <= anc@.len(),
            increasing_below(anc@, orig.len() as int),
            d@.len() == orig.len(),
            ganc == ints(anc@),
            forall|u: int|
                0 <= u < anc@.len() ==> if add {
                    orig[anc@[u] as int].content_size + k <= u32::MAX
                } else {
                    orig[anc@[u] as int].content_size >= k
                },
            forall|x: int|
                0 <= x < orig.len() ==> #[trigger] d@[x] == if ganc.take(t as int).contains(x) {
                    if add { grow(orig[x], k as int) } else { shrink(orig[x], k as int) }
                } else {
                    orig[x]
                },
        decreases anc@.len() - t,
    {
        let a = anc[t];
        assert(ganc[t as int] == a as int);
        let mut x = d[a];
        assert(x == orig[a as int]) by {
            let t0 = ganc.take(t as int);
            if t0.contains(a as int) {
                let s = choose|s: int| 0 <= s < t0.len() && #[trigger] t0[s] == a as int;
                assert(anc@[s] < anc@[t as int]);
            }
        }
        if add {
            x.content_size = x.content_size + k;
        } else {
            x.content_size = x.content_size - k;
        }
        d.set(a, x);
        assert forall|y: int| 0 <= y < orig.len() implies #[trigger] d@[y] == if ganc.take(t + 1).contains(y) {
            if add { grow(orig[y], k as int) } else { shrink(orig[y], k as int) }
        } else {
            orig[y]
        } by {
            let t1 = ganc.take(t + 1);
            let t0 = ganc.take(t as int);
            if y == a as int {
                assert(t1[t as int] == y);
            } else {
                if t1.contains(y) {
                    let s = choose|s: int| 0 <= s < t1.len() && #[trigger] t1[s] == y;
                    assert(s != t);
                    assert(t0[s] == y);
                }
                if t0.contains(y) {
                    let s = choose|s: int| 0 <= s < t0.len() && #[trigger] t0[s] == y;
                    assert(t1[s] == y);
                }
            }
        }
        t = t + 1;
    }
    assert(ganc.take(anc@.len() as int) =~= ganc);
}

/// The number of descriptors in the subtree at `i`, when it fits before `len`.
fn subtree_len(desc: &Descriptor, i: usize, len: usize) -> (r: Option<usize>)
    requires
        i < len,
    ensures
        match r {
            Some(s) => s == desc.span() && i + s <= len,
            None => i + desc.span() > len,
        },
{
    if desc.content_type != 0 {
        Some(1)
    } else if desc.content_size as u64 >= (len - i) as u64 {
        None
    } else {
        Some(desc.content_size as usize + 1)
    }
}

/// The `s` descriptors at `i`, and the rest in order.
fn split_out(d: &Vec<Descriptor>, i: usize, s: usize) -> (r: (Vec<Descriptor>, Vec<Descriptor>))
    requires
        i + s <= d@.len(),
    ensures
        r.0@ == d@.subrange(i as int, i + s),
        r.1@ == d@.take(i as int) + d@.skip(i + s),
{
    let mut taken: Vec<Descriptor> = Vec::new();
    let mut kept: Vec<Descriptor> = Vec::new();
    let mut x: usize = 0;
    while x < d.len()
        invariant
            x <= d@.len(),
            i + s <= d@.len(),
            taken@ == d@.subrange(i as int, if x < i { i as int } else if x < i + s { x as int } else { (i + s) as int }),
            kept@ == if x <= i { d@.take(x as int) } else if x <= i + s { d@.take(i as int) } else { d@.take(i as int) + d@.subrange((i + s) as int, x as int) },
        decreases d@.len() - x,
    {
        if x < i {
            kept.push(d[x]);
            assert(d@.take(x + 1) =~= d@.take(x as int).push(d@[x as int]));
        } else if x < i + s {
            taken.push(d[x]);
            assert(d@.subrange(i as int, x + 1) =~= d@.subrange(i as int, x as int).push(d@[x as int]));
        } else {
            kept.push(d[x]);
            assert(d@.subrange((i + s) as int, x + 1) =~= d@.subrange((i + s) as int, x as int).push(d@[x as int]));
        }
        x = x + 1;
    }
    if x <= i + s {
        assert(d@.skip(i + s) =~= Seq::<Descriptor>::empty());
        assert(kept@ =~= d@.take(i as int) + d@.skip(i + s));
    } else {
        assert(d@.skip(i + s) =~= d@.subrange((i + s) as int, x as int));
    }
    (taken, kept)
}

/// Removes the subtree that `path` names and returns it; `None`, with the
/// directory unchanged, when `path` names nothing.
pub fn remove(d: &mut Vec<Descriptor>, path: &[u8]) -> (r: Option<Vec<Descriptor>>)
    ensures
        removes(old(d)@, path@, final(d)@, opt_view(r)),
{
    let (i, anc) = match locate(d.as_slice(), path) {
        Located::Found(i, anc) => (i, anc),
        _ => {
            return None;
        },
    };
    let ghost ganc = ints(anc@);
    let s = match subtree_len(&d[i], i, d.len()) {
        Some(s) => s,
        None => {
            return None;
        },
    };
    let mut t: usize = 0;
    while t < anc.len()
        invariant
            t <= anc@.len(),
            increasing_below(anc@, i as int),
            i < d@.len(),
            s == d@[i as int].span(),
            ganc == ints(anc@),
            d@ == old(d)@,
            walk_top(d@, path@) == Walk::Found(i as int, ganc),
            forall|u: int| 0 <= u < t ==> d@[ganc[u]].content_size >= s,
        decreases anc@.len() - t,
    {
        assert(ganc[t as int] == anc@[t as int] as int);
        if (d[anc[t]].content_size as usize) < s {
            assert(!removable(d@, i as int, ganc));
            return None;
        }
        t = t + 1;
    }
    assert(removable(d@, i as int, ganc));
    let ghost orig = d@;
    let k: u32 = if s <= u32::MAX as usize { s as u32 } else { 0 };
    assert(anc@.len() == 0 || k == s) by {
        if anc@.len() > 0 {
            assert(ganc[0] == anc@[0] as int);
        }
    }
    assert forall|u: int| 0 <= u < anc@.len() implies d@[anc@[u] as int].content_size >= k by {
        assert(ganc[u] == anc@[u] as int);
    }
    resize_ancestors(d, &anc, k, false);
    let (taken, kept) = split_out(d, i, s);
    assert(taken@ =~= orig.subrange(i as int, (i + s) as int)) by {
        assert forall|y: int| 0 <= y < s implies taken@[y] == orig[i + y] by {
            assert(d@[i + y] == orig[i + y]);
        }
    }
    assert(kept@ =~= cut(orig, i as int, s as int, ganc)) by {
        assert forall|y: int| 0 <= y < i implies #[trigger] d@[y] == (if ganc.contains(y) { shrink(orig[y], s as int) } else { orig[y] }) by {
            if ganc.contains(y) {
                assert(ganc.len() > 0);
            }
        }
    }
    *d = kept;
    Some(taken)
}

/// `desc` made a link to the payload of `src`.
pub open spec fn linked(desc: Descriptor, src: Descriptor) -> Descriptor {
    Descriptor { content_type: src.content_type, content_size: src.content_size, section: src.section, ..desc }
}

/// What linking `p` to `src` does to `d`.
pub open spec fn links(d: Seq<Descriptor>, p: Seq<u8>, src: Descriptor, d2: Seq<Descriptor>, r: Result<usize, ErrorKind>) -> bool {
    if src.is_dir_spec() {
        r == Err::<usize, ErrorKind>(ErrorKind::InvalidInput) && d2 == d
    } else {
        exists|mid: Seq<Descriptor>, r0: Result<usize, ErrorKind>| {
            &&& #[trigger] creates(d, p, mid, r0)
            &&& match r0 {
                Err(e) => r == Err::<usize, ErrorKind>(e) && d2 == d,
                Ok(i) => if mid[i as int].is_dir_spec() && mid[i as int].content_size != 0 {
                    r == Err::<usize, ErrorKind>(ErrorKind::InvalidInput) && d2 == mid
                } else {
                    r == Ok::<usize, ErrorKind>(i) && d2 == mid.update(i as int, linked(mid[i as int], src))
                },
            }
        }
    }
}

/// Creates `path` as a further name for the file `src`: the new descriptor
/// shares its payload. An existing file at `path` is overwritten.
///
/// Fails with `InvalidInput` when `src` is a directory, or `path` names a
/// directory with contents, and as `create` fails.
pub fn create_link(d: &mut Vec<Descriptor>, path: &[u8], src: &Descriptor) -> (r: Result<usize, ErrorKind>)
    ensures
        links(old(d)@, path@, *src, final(d)@, r),
{
    if src.is_dir() {
        return Err(ErrorKind::InvalidInput);
    }
    let ghost start = d@;
    let r0 = create(d, path);
    let ghost mid = d@;
    let i = match r0 {
        Ok(i) => i,
        Err(e) => {
            assert(creates(start, path@, mid, r0));
            return Err(e);
        },
    };
    if d[i].content_type == 0 && d[i].content_size != 0 {
        return Err(ErrorKind::InvalidInput);
    }
    let mut x = d[i];
    x.content_type = src.content_type;
    x.content_size = src.content_size;
    x.section = src.section;
    d.set(i, x);
    Ok(i)
}

/// `d` with the subtree `sub` grafted at `j` under the name held there: its
/// root replaces the descriptor at `j`, its descendants follow, and every
/// directory of `anc` grows by their number.
pub open spec fn grafted(d: Seq<Descriptor>, j: int, anc: Seq<int>, sub: Seq<Descriptor>) -> Seq<Descriptor> {
    inserted(d.update(j, Descriptor { name: d[j].name, ..sub[0] }), j + 1, anc, sub.skip(1))
}

/// `dst` lies inside the subtree at `i`, or is that subtree itself.
pub open spec fn inside(w: Walk, i: int) -> bool {
    match w {
        Walk::Found(j, a) => j == i || a.contains(i),
        Walk::Missing(_, a, _) => a.contains(i),
        Walk::Blocked(b, a) => b == i || a.contains(i),
    }
}

/// Grafting at the descriptor that creating `dst` gave is possible: it is a
/// leaf, the path leads to it, and the directories above it can count `k`
/// more descendants.
pub open spec fn graftable(d4: Seq<Descriptor>, dst: Seq<u8>, r0: Result<usize, ErrorKind>, k: int) -> bool {
    &&& r0 is Ok
    &&& (r0->Ok_0 as int) < d4.len()
    &&& d4[r0->Ok_0 as int].span() == 1
    &&& walk_top(d4, dst) is Found
    &&& walk_top(d4, dst)->Found_0 == r0->Ok_0 as int
    &&& fits(d4, walk_top(d4, dst)->Found_1, k)
}

/// What moving `src` to `dst` does to `d`.
pub open spec fn moves(d: Seq<Descriptor>, src: Seq<u8>, dst: Seq<u8>, d2: Seq<Descriptor>, r: Result<(), ErrorKind>) -> bool {
    &&& r is Err ==> d2 == d
    &&& match walk_top(d, src) {
        Walk::Found(i, anc) => if !removable(d, i, anc) {
            r == Err::<(), ErrorKind>(ErrorKind::NotFound)
        } else if inside(walk_top(d, dst), i) {
            r == Err::<(), ErrorKind>(ErrorKind::InvalidInput)
        } else {
            &&& r is Err ==> r == Err::<(), ErrorKind>(ErrorKind::InvalidInput)
            &&& forall|d1: Seq<Descriptor>, sub: Seq<Descriptor>, d3: Seq<Descriptor>, rm: Option<Seq<Descriptor>>, d4: Seq<Descriptor>, r0: Result<usize, ErrorKind>|
                #[trigger] removes(d, src, d1, Some(sub)) && #[trigger] removes(d1, dst, d3, rm) && #[trigger] creates(d3, dst, d4, r0)
                ==> (r is Ok <==> graftable(d4, dst, r0, sub.len() - 1))
            &&& r is Ok ==> exists|d1: Seq<Descriptor>, sub: Seq<Descriptor>, d3: Seq<Descriptor>, d4: Seq<Descriptor>, j: usize, anc3: Seq<int>| {
                &&& #[trigger] removes(d, src, d1, Some(sub))
                &&& exists|rm: Option<Seq<Descriptor>>| #[trigger] removes(d1, dst, d3, rm)
                &&& #[trigger] creates(d3, dst, d4, Ok(j))
                &&& walk_top(d4, dst) == Walk::Found(j as int, anc3)
                &&& d4[j as int].span() == 1
                &&& fits(d4, anc3, sub.len() - 1)
                &&& d2 == #[trigger] grafted(d4, j as int, anc3, sub)
            }
        },
        _ => r == Err::<(), ErrorKind>(ErrorKind::NotFound),
    }
}

/// Every directory of `anc` can count `k` more descendants.
fn ancestors_fit(d: &Vec<Descriptor>, anc: &Vec<usize>, k: usize) -> (r: bool)
    requires
        increasing_below(anc@, d@.len() as int),
    ensures
        r == fits(d@, ints(anc@), k as int),
{
    if k > u32::MAX as usize || k > usize::MAX - d.len() {
        return false;
    }
    let ghost ganc = ints(anc@);
    let mut t: usize = 0;
    while t < anc.len()
        invariant
            t <= anc@.len(),
            increasing_below(anc@, d@.len() as int),
            ganc == ints(anc@),
            k <= u32::MAX,
            forall|u: int| 0 <= u < t ==> d@[ganc[u]].content_size + k <= u32::MAX,
        decreases anc@.len() - t,
    {
        assert(ganc[t as int] == anc@[t as int] as int);
        if d[anc[t]].content_size as u64 + k as u64 > u32::MAX as u64 {
            return false;
        }
        t = t + 1;
    }
    true
}

fn copy_dir(d: &Vec<Descriptor>) -> (r: Vec<Descriptor>)
    ensures
        r@ == d@,
{
    let mut r: Vec<Descriptor> = Vec::new();
    let mut i: usize = 0;
    while i < d.len()
        invariant
            i <= d@.len(),
            r@ == d@.take(i as int),
        decreases d@.len() - i,
    {
        r.push(d[i]);
        assert(d@.take(i + 1) =~= d@.take(i as int).push(d@[i as int]));
        i = i + 1;
    }
    assert(d@.take(d@.len() as int) =~= d@);
    r
}

fn contains_index(a: &Vec<usize>, i: usize) -> (r: bool)
    ensures
        r == ints(a@).contains(i as int),
{
    let mut k: usize = 0;
    while k < a.len()
        invariant
            k <= a@.len(),
            forall|t: int| 0 <= t < k ==> a@[t] != i,
        decreases a@.len() - k,
    {
        if a[k] == i {
            assert(ints(a@)[k as int] == i as int);
            return true;
        }
        k = k + 1;
    }
    assert(!ints(a@).contains(i as int)) by {
        if ints(a@).contains(i as int) {
            let t = choose|t: int| 0 <= t < ints(a@).len() && ints(a@)[t] == i as int;
            assert(a@[t] == i);
        }
    }
    false
}

/// Moves the subtree at `src` to `dst`, creating the parents of `dst` as
/// needed and replacing what `dst` named before.
///
/// Fails with `NotFound` when `src` names nothing, and with `InvalidInput` when
/// `dst` lies inside the subtree being moved or cannot be created. On failure
/// nothing changes.
#[verifier::rlimit(60)]
pub fn move_file(d: &mut Vec<Descriptor>, src: &[u8], dst: &[u8]) -> (r: Result<(), ErrorKind>)
    ensures
        moves(old(d)@, src@, dst@, final(d)@, r),
{
    let i = match locate(d.as_slice(), src) {
        Located::Found(i, _) => i,
        _ => {
            return Err(ErrorKind::NotFound);
        },
    };
    let inside_src = match locate(d.as_slice(), dst) {
        Located::Found(j, a) => j == i || contains_index(&a, i),
        Located::Missing(_, a, _) => contains_index(&a, i),
        Located::Blocked(b, a) => b == i || contains_index(&a, i),
    };
    let mut work = copy_dir(d);
    let ghost d0 = work@;
    let sub = match remove(&mut work, src) {
        Some(s) => s,
        None => {
            return Err(ErrorKind::NotFound);
        },
    };
    if inside_src {
        return Err(ErrorKind::InvalidInput);
    }
    let ghost d1 = work@;
    let ghost rsub = sub@;
    let rm = remove(&mut work, dst);
    let ghost d3 = work@;
    let ghost rmv = opt_view(rm);
    assert(removes(d1, dst@, d3, rmv));
    assert(removes(d0, src@, d1, Some(rsub)));
    assert(sub@.len() >= 1) by {
        let w = walk_top(d0, src@);
        assert(w is Found);
    }
    let r0 = create(&mut work, dst);
    let ghost d4 = work@;
    // Every way of reaching this point gives the same directories and outcome.
    assert forall|e1: Seq<Descriptor>, s1: Seq<Descriptor>, e3: Seq<Descriptor>, m1: Option<Seq<Descriptor>>, e4: Seq<Descriptor>, q0: Result<usize, ErrorKind>|
        #[trigger] removes(d0, src@, e1, Some(s1)) && #[trigger] removes(e1, dst@, e3, m1) && #[trigger] creates(e3, dst@, e4, q0)
        implies e1 == d1 && s1 == rsub && e3 == d3 && e4 == d4 && q0 == r0 by {
        lemma_creates_unique(d3, dst@, d4, r0, e4, q0);
    }
    let j = match r0 {
        Ok(j) => j,
        Err(_) => {
            assert(!graftable(d4, dst@, r0, rsub.len() - 1));
            return Err(ErrorKind::InvalidInput);
        },
    };
    if work[j].content_type == 0 && work[j].content_size != 0 {
        assert(!graftable(d4, dst@, r0, rsub.len() - 1));
        return Err(ErrorKind::InvalidInput);
    }
    let anc3 = match locate(work.as_slice(), dst) {
        Located::Found(j2, a) => {
            if j2 != j {
                assert(!graftable(d4, dst@, r0, rsub.len() - 1));
                return Err(ErrorKind::InvalidInput);
            }
            a
        },
        _ => {
            assert(!graftable(d4, dst@, r0, rsub.len() - 1));
            return Err(ErrorKind::InvalidInput);
        },
    };
    let ghost ganc = ints(anc3@);
    let k = sub.len() - 1;
    if !ancestors_fit(&work, &anc3, k) {
        assert(!graftable(d4, dst@, r0, rsub.len() - 1));
        return Err(ErrorKind::InvalidInput);
    }
    assert(graftable(d4, dst@, r0, rsub.len() - 1));
    assert forall|u: int| 0 <= u < anc3@.len() implies work@[anc3@[u] as int].content_size + k <= u32::MAX by {
        assert(ganc[u] == anc3@[u] as int);
    }
    let mut head = sub[0];
    head.name = work[j].name;
    work.set(j, head);
    let ghost d5 = work@;
    resize_ancestors(&mut work, &anc3, k as u32, true);
    let ghost grown = work@;
    let mut x: usize = 0;
    while x < k
        invariant
            x <= k,
            k + 1 == sub@.len(),
            j < grown.len(),
            grown.len() + k <= usize::MAX,
            work@ =~= grown.take(j + 1) + sub@.skip(1).take(x as int) + grown.skip(j + 1),
        decreases k - x,
    {
        work.insert(j + 1 + x, sub[x + 1]);
        assert(sub@.skip(1).take(x + 1) =~= sub@.skip(1).take(x as int).push(sub@[x + 1]));
        x = x + 1;
    }
    assert(sub@.skip(1).take(k as int) =~= sub@.skip(1));
    assert(work@ =~= grafted(d4, j as int, ganc, sub@)) by {
        assert(d5 == d4.update(j as int, Descriptor { name: d4[j as int].name, ..sub@[0] }));
    }
    assert(removes(d0, src@, d1, Some(sub@)));
    assert(creates(d3, dst@, d4, Ok(j)));
    *d = work;
    Ok(())
}

} // verus!
