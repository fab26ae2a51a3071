use vstd::prelude::*;
use crate::types::{Descriptor, first_nul};
use crate::dir::{is_sep, valid_name};

verus! {

/// A name without separators, and zeros only after its end.
pub open spec fn name_ok(x: Descriptor) -> bool {
    &&& valid_name(x.name@)
    &&& forall|k: int| 0 <= k < x.name@.len() ==> !is_sep(#[trigger] x.name@[k])
    &&& forall|k: int| first_nul(x.name.bytes@, 0) <= k < 16 ==> #[trigger] x.name.bytes@[k] == 0
}

/// A descriptor on its own is sound: a known type, a proper name, and for a
/// file a section below `high` that holds its bytes.
pub open spec fn desc_ok(x: Descriptor, high: u32) -> bool {
    &&& x.content_type <= 1
    &&& name_ok(x)
    &&& !x.is_dir_spec() ==> x.section.end() <= high && (x.section.size > 0 ==> x.content_size <= 16 * x.section.size)
}

/// Some sibling of the window `[lo, hi)` is named `n`.
pub open spec fn sib_named(d: Seq<Descriptor>, lo: int, hi: int, n: Seq<u8>) -> bool
    decreases hi - lo,
{
    if lo < 0 || hi > d.len() || lo >= hi || d[lo].span() > hi - lo {
        false
    } else {
        d[lo].name@ == n || sib_named(d, lo + d[lo].span(), hi, n)
    }
}

/// The window `[lo, hi)` is tiled by subtrees that fit inside it, every
/// descriptor is sound, and no two siblings share a name.
pub open spec fn window_ok(d: Seq<Descriptor>, lo: int, hi: int, high: u32) -> bool
    decreases hi - lo,
{
    if lo == hi && 0 <= lo <= d.len() {
        true
    } else if lo < 0 || hi > d.len() || lo >= hi || d[lo].span() > hi - lo {
        false
    } else {
        let next = lo + d[lo].span();
        &&& desc_ok(d[lo], high)
        &&& !sib_named(d, next, hi, d[lo].name@)
        &&& d[lo].is_dir_spec() ==> window_ok(d, lo + 1, next, high)
        &&& window_ok(d, next, hi, high)
    }
}

/// The whole directory is sound for data below `high`.
pub open spec fn fsck_ok(d: Seq<Descriptor>, high: u32) -> bool {
    window_ok(d, 0, d.len() as int, high)
}

fn check_name(x: &Descriptor) -> (r: bool)
    ensures
        r == name_ok(*x),
{
    let n = x.name.len();
    proof {
        lemma_name_nonzero(x.name.bytes@, 0);
    }
    if n == 0 {
        return false;
    }
    let mut k: usize = 0;
    while k < 16
        invariant
            0 < n <= 16,
            forall|t: int| 0 <= t < n ==> x.name.bytes@[t] != 0,
            n == first_nul(x.name.bytes@, 0),
            k <= 16,
            forall|t: int| 0 <= t < k && t < n ==> x.name.bytes@[t] != 0 && !is_sep(x.name.bytes@[t]),
            forall|t: int| n <= t < k ==> x.name.bytes@[t] == 0,
        decreases 16 - k,
    {
        let b = x.name.bytes[k];
        if k < n {
            if b == 47u8 || b == 92u8 {
                assert(x.name@[k as int] == b);
                return false;
            }
        } else if b != 0 {
            return false;
        }
        k = k + 1;
    }
    assert(forall|t: int| 0 <= t < x.name@.len() ==> x.name@[t] == x.name.bytes@[t]);
    true
}

proof fn lemma_name_nonzero(b: Seq<u8>, i: int)
    requires
        0 <= i <= b.len(),
    ensures
        forall|t: int| i <= t < first_nul(b, i) ==> b[t] != 0,
    decreases b.len() - i,
{
    if i < b.len() && b[i] != 0 {
        lemma_name_nonzero(b, i + 1);
    }
}

fn check_desc(x: &Descriptor, high: u32) -> (r: bool)
    ensures
        r == desc_ok(*x, high),
{
    proof {
        lemma_first_nul_bounds(x.name.bytes@, 0);
        lemma_name_nonzero(x.name.bytes@, 0);
    }
    if x.content_type > 1 || !check_name(x) {
        return false;
    }
    if x.content_type != 0 {
        if x.section.offset as u64 + x.section.size as u64 > high as u64 {
            return false;
        }
        if x.section.size > 0 && x.content_size as u64 > 16 * x.section.size as u64 {
            return false;
        }
    }
    true
}

proof fn lemma_first_nul_bounds(b: Seq<u8>, i: int)
    requires
        0 <= i <= b.len(),
    ensures
        i <= first_nul(b, i) <= b.len(),
    decreases b.len() - i,
{
    if i < b.len() && b[i] != 0 {
        lemma_first_nul_bounds(b, i + 1);
    }
}

fn names_equal(a: &Descriptor, b: &Descriptor) -> (r: bool)
    ensures
        r == (a.name@ == b.name@),
{
    let n = a.name.len();
    if n != b.name.len() {
        return false;
    }
    let mut k: usize = 0;
    while k < n
        invariant
            k <= n <= 16,
            a.name@ == a.name.bytes@.take(n as int),
            b.name@ == b.name.bytes@.take(n as int),
            n == a.name@.len(),
            n == b.name@.len(),
            forall|t: int| 0 <= t < k ==> a.name@[t] == b.name@[t],
        decreases n - k,
    {
        if a.name.bytes[k] != b.name.bytes[k] {
            assert(a.name@[k as int] != b.name@[k as int]);
            return false;
        }
        k = k + 1;
    }
    assert(a.name@ =~= b.name@);
    true
}

fn has_sibling_named(d: &[Descriptor], lo: usize, hi: usize, x: &Descriptor) -> (r: bool)
    requires
        lo <= hi <= d@.len(),
    ensures
        r == sib_named(d@, lo as int, hi as int, x.name@),
{
    let mut i = lo;
    while i < hi
        invariant
            lo <= i <= hi <= d@.len(),
            sib_named(d@, lo as int, hi as int, x.name@) == sib_named(d@, i as int, hi as int, x.name@),
        decreases hi - i,
    {
        if d[i].content_type == 0 && d[i].content_size as u64 >= (hi - i) as u64 {
            return false;
        }
        if names_equal(&d[i], x) {
            return true;
        }
        i = if d[i].content_type == 0 { i + 1 + d[i].content_size as usize } else { i + 1 };
    }
    false
}

fn report(log: &mut String, msg: &str)
    requires
        msg@.len() > 0,
    ensures
        final(log)@ == old(log)@ + msg@,
        final(log)@ != old(log)@,
{
    log.append(msg);
    assert(final(log)@.len() > old(log)@.len());
}

/// Checks the window `[lo, hi)`, appending a line to `log` for each problem.
fn check_window(d: &[Descriptor], lo: usize, hi: usize, high: u32, log: &mut String) -> (r: bool)
    requires
        lo <= hi <= d@.len(),
    ensures
        r == window_ok(d@, lo as int, hi as int, high),
        r ==> final(log)@ == old(log)@,
        !r ==> final(log)@.len() > old(log)@.len(),
    decreases hi - lo,
{
    let mut ok = true;
    let mut i = lo;
    while i < hi
        invariant
            lo <= i <= hi <= d@.len(),
            window_ok(d@, lo as int, hi as int, high) == (ok && window_ok(d@, i as int, hi as int, high)),
            ok ==> log@ == old(log)@,
            !ok ==> log@.len() > old(log)@.len(),
        decreases hi - i,
    {
        let x = d[i];
        if x.content_type == 0 && x.content_size as u64 >= (hi - i) as u64 {
            proof {
                reveal_strlit("fsck: a directory's contents run past the end of its parent\n");
            }
            report(log, "fsck: a directory's contents run past the end of its parent\n");
            return false;
        }
        let next = if x.content_type == 0 { i + 1 + x.content_size as usize } else { i + 1 };
        let mut here = true;
        if !check_desc(&x, high) {
            proof {
                reveal_strlit("fsck: a descriptor has a bad type, name or section\n");
            }
            report(log, "fsck: a descriptor has a bad type, name or section\n");
            here = false;
        }
        if has_sibling_named(d, next, hi, &x) {
            proof {
                reveal_strlit("fsck: two siblings share a name\n");
            }
            report(log, "fsck: two siblings share a name\n");
            here = false;
        }
        if x.content_type == 0 {
            if !check_window(d, i + 1, next, high, log) {
                here = false;
            }
        }
        ok = ok && here;
        i = next;
    }
    ok
}

/// Checks the structure of a directory for data below block `high_mark`,
/// appending a line to `log` for each problem found. Returns whether the
/// directory is sound, which is exactly when nothing was appended.
pub fn fsck(d: &[Descriptor], high_mark: u32, log: &mut String) -> (r: bool)
    ensures
        r == fsck_ok(d@, high_mark),
        r <==> final(log)@ == old(log)@,
        final(log)@.len() >= old(log)@.len(),
{
    check_window(d, 0, d.len(), high_mark, log)
}

} // verus!
