use vstd::prelude::*;
use crate::types::{Block, Key, Descriptor, InfoHeader, HEADER_BLOCKS, VERSION};
use crate::codec::{decode_dir, lemma_decode_encoded_dir};
use crate::crypt::{masked, mac_of, keystream, xor16, lemma_xor_twice, lemma_masked_twice};
use crate::codec::{flat, holds_bytes};
use crate::memory::stores;
use crate::dir::{creates, find_path};
use crate::tree::{wf, lemma_find_after_create, lemma_find_after_overwrite, lemma_create_keeps_wf, lemma_wf_overwrite};
use crate::archive::{reads_data, extent, opens_header, seals_header, decode_info, encodes_info, lemma_decode_info};
use crate::memory::{collected, live, opens_archive, opened_with, finishes, finished_with, dir_end};

verus! {

/// Masking is its own inverse: what masks `b` into `c` also masks `c` into `b`.
pub proof fn lemma_masked_symmetric(key: Key, nonce: Seq<u8>, b: Seq<Block>, c: Seq<Block>)
    requires
        masked(key, nonce, b, c),
        forall|j: int| 0 <= j < b.len() ==> (#[trigger] b[j])@.len() == 16,
    ensures
        masked(key, nonce, c, b),
{
    assert forall|j: int| 0 <= j < c.len() implies (#[trigger] b[j])@ == xor16(c[j]@, keystream(key, nonce, j)) by {
        lemma_xor_twice(b[j]@, keystream(key, nonce, j));
    }
}

/// After garbage collection every surviving file reads exactly as before:
/// its extent was copied unchanged and its nonce and MAC were kept.
pub proof fn lemma_gc_preserves_reads(ob: Seq<Block>, od: Seq<Descriptor>, nb: Seq<Block>, nd: Seq<Descriptor>, key: Key, t: int, r: Result<Vec<u8>, crate::types::ErrorKind>)
    requires
        collected(ob, od, nb, nd, od.len() as int),
        0 <= t < od.len(),
        live(ob, od[t]),
    ensures
        reads_data(nb, nd[t], key, r) == reads_data(ob, od[t], key, r),
{
    let (a, b) = (nd[t], od[t]);
    assert(extent(nb, a.section) == extent(ob, b.section));
    assert(a.section.nonce == b.section.nonce && a.section.mac == b.section.mac && a.section.size == b.section.size);
    assert(a.content_type == b.content_type && a.content_size == b.content_size);
    assert forall|p: Seq<Block>| #[trigger] crate::archive::payload(p, a) == crate::archive::payload(p, b) by {}
    if reads_data(nb, a, key, r) {
        if r is Ok && !a.is_dir_spec() && a.section.mac@ == mac_of(key, a.section.size, a.section.nonce@, extent(nb, a.section)) {
            let p = choose|p: Seq<Block>| masked(key, a.section.nonce@, extent(nb, a.section), p) && r->Ok_0@ == crate::archive::payload(p, a);
            assert(masked(key, b.section.nonce@, extent(ob, b.section), p) && r->Ok_0@ == crate::archive::payload(p, b));
        }
    }
    if reads_data(ob, b, key, r) {
        if r is Ok && !b.is_dir_spec() && b.section.mac@ == mac_of(key, b.section.size, b.section.nonce@, extent(ob, b.section)) {
            let p = choose|p: Seq<Block>| masked(key, b.section.nonce@, extent(ob, b.section), p) && r->Ok_0@ == crate::archive::payload(p, b);
            assert(masked(key, a.section.nonce@, extent(nb, a.section), p) && r->Ok_0@ == crate::archive::payload(p, a));
        }
    }
}

/// Blocks written at or after the end of the directory that a header names
/// change nothing that the header, the directory, or any file below that end
/// gives: an edit interrupted before its header is written leaves the archive
/// as it was.
pub proof fn lemma_writes_past_end_keep_archive(b1: Seq<Block>, b2: Seq<Block>, key: Key, info: InfoHeader, x: Descriptor, r: Result<Vec<u8>, crate::types::ErrorKind>)
    requires
        opens_header(b1, key, Ok(info)),
        HEADER_BLOCKS <= dir_end(info) <= b1.len(),
        dir_end(info) <= b2.len(),
        b2.take(dir_end(info)) == b1.take(dir_end(info)),
        x.section.end() <= dir_end(info),
    ensures
        opens_header(b2, key, Ok(info)),
        b2.subrange(info.directory.offset as int, dir_end(info)) == b1.subrange(info.directory.offset as int, dir_end(info)),
        reads_data(b2, x, key, r) == reads_data(b1, x, key, r),
{
    let e = dir_end(info);
    assert forall|k: int| 0 <= k < e implies b2[k] == b1[k] by {
        assert(b2.take(e)[k] == b1.take(e)[k]);
    }
    assert(b2.subrange(2, 8) =~= b1.subrange(2, 8));
    assert(b2.subrange(info.directory.offset as int, e) =~= b1.subrange(info.directory.offset as int, e));
    assert(extent(b2, x.section) =~= extent(b1, x.section));
}

/// Opening a finished archive gives back its directory, and the data blocks
/// after the header as they were.
pub proof fn lemma_finish_then_open(blocks: Seq<Block>, dir: Seq<Descriptor>, key: Key, out: Seq<Block>)
    requires
        finishes(blocks, dir, key, out),
        HEADER_BLOCKS <= blocks.len(),
        out.len() <= u32::MAX,
    ensures
        opens_archive(out, key, Ok((out.take(blocks.len() as int), dir))),
        forall|t: int| HEADER_BLOCKS <= t < blocks.len() ==> out.take(blocks.len() as int)[t] == blocks[t],
{
    let (info, plain) = choose|info: InfoHeader, plain: Seq<Block>| #[trigger] finished_with(blocks, dir, key, out, info, plain);
    let high = blocks.len() as int;
    let h = out.take(HEADER_BLOCKS as int);
    let hplain = choose|p: Seq<Block>| encodes_info(p, info) && masked(key, h[0]@, p, h.subrange(2, 8));
    assert(h.subrange(2, 8) =~= out.subrange(2, 8));
    lemma_masked_symmetric(key, h[0]@, hplain, h.subrange(2, 8));
    lemma_decode_info(hplain, info);
    assert(opens_header(out, key, Ok(info)));
    assert(out.subrange(info.directory.offset as int, dir_end(info)) =~= out.skip(high));
    lemma_masked_symmetric(key, info.directory.nonce@, plain, out.skip(high));
    lemma_decode_encoded_dir(plain, dir);
    assert(opened_with(out, key, info, plain, out.take(high), dir));
    let rr = Ok::<(Seq<Block>, Seq<Descriptor>), Seq<Block>>((out.take(high), dir));
    assert(opened_with(out, key, info, plain, rr->Ok_0.0, rr->Ok_0.1));
}

/// A file that `create_file` stored reads back as exactly the bytes written.
pub proof fn lemma_read_back(old: Seq<Block>, new: Seq<Block>, data: Seq<u8>, key: Key, desc: Descriptor, r: Result<Vec<u8>, crate::types::ErrorKind>)
    requires
        stores(old, new, data, key, desc),
        reads_data(new, desc, key, r),
    ensures
        r is Ok,
        r->Ok_0@ == data,
{
    let c = new.skip(old.len() as int);
    assert(extent(new, desc.section) =~= c);
    let plain = choose|plain: Seq<Block>| holds_bytes(plain, data) && #[trigger] masked(key, desc.section.nonce@, plain, c);
    let p = choose|p: Seq<Block>| masked(key, desc.section.nonce@, extent(new, desc.section), p) && r->Ok_0@ == crate::archive::payload(p, desc);
    lemma_masked_twice(key, desc.section.nonce@, plain, c, p);
    assert(crate::archive::payload(p, desc) =~= data) by {
        assert(desc.content_size <= 16 * p.len());
        assert forall|t: int| 0 <= t < data.len() implies crate::archive::payload(p, desc)[t] == data[t] by {
            assert(flat(plain)[t] == data[t]);
        }
    }
}

/// The same ciphertext unmasks to one plaintext only.
pub proof fn lemma_masked_unique(key: Key, nonce: Seq<u8>, c: Seq<Block>, pa: Seq<Block>, pb: Seq<Block>)
    requires
        masked(key, nonce, c, pa),
        masked(key, nonce, c, pb),
    ensures
        pa == pb,
{
    assert forall|j: int| 0 <= j < pa.len() implies pa[j] == pb[j] by {
        assert(pa[j]@ == pb[j]@);
        assert(pa[j] =~= pb[j]);
    }
    assert(pa =~= pb);
}

/// Opening an archive has one outcome.
pub proof fn lemma_open_unique(blocks: Seq<Block>, key: Key, b1: Seq<Block>, d1: Seq<Descriptor>, b2: Seq<Block>, d2: Seq<Descriptor>)
    requires
        opens_archive(blocks, key, Ok((b1, d1))),
        opens_archive(blocks, key, Ok((b2, d2))),
    ensures
        b1 == b2,
        d1 == d2,
{
    let r1 = Ok::<(Seq<Block>, Seq<Descriptor>), Seq<Block>>((b1, d1));
    let r2 = Ok::<(Seq<Block>, Seq<Descriptor>), Seq<Block>>((b2, d2));
    assert(r1->Ok_0.0 == b1 && r2->Ok_0.0 == b2);
    let (i1, pa) = choose|info: InfoHeader, plain: Seq<Block>| #[trigger] opened_with(blocks, key, info, plain, r1->Ok_0.0, r1->Ok_0.1);
    let (i2, pb) = choose|info: InfoHeader, plain: Seq<Block>| #[trigger] opened_with(blocks, key, info, plain, r2->Ok_0.0, r2->Ok_0.1);
    let c = blocks.subrange(2, 8);
    let h1 = choose|plain: Seq<Block>| masked(key, blocks[0]@, c, plain) && (if decode_info(plain).version == VERSION {
        Ok::<InfoHeader, crate::types::ErrorKind>(i1) == Ok::<InfoHeader, crate::types::ErrorKind>(decode_info(plain))
    } else {
        Ok::<InfoHeader, crate::types::ErrorKind>(i1) == Err::<InfoHeader, crate::types::ErrorKind>(crate::types::ErrorKind::InvalidData)
    });
    let h2 = choose|plain: Seq<Block>| masked(key, blocks[0]@, c, plain) && (if decode_info(plain).version == VERSION {
        Ok::<InfoHeader, crate::types::ErrorKind>(i2) == Ok::<InfoHeader, crate::types::ErrorKind>(decode_info(plain))
    } else {
        Ok::<InfoHeader, crate::types::ErrorKind>(i2) == Err::<InfoHeader, crate::types::ErrorKind>(crate::types::ErrorKind::InvalidData)
    });
    lemma_masked_unique(key, blocks[0]@, c, h1, h2);
    assert(i1 == i2);
    lemma_masked_unique(key, i1.directory.nonce@, blocks.subrange(i1.directory.offset as int, dir_end(i1)), pa, pb);
}

/// A file written with `create_file` into a well-formed directory is what its
/// path then names, and reads back as the bytes written; the directory stays
/// well formed.
pub proof fn lemma_create_file_reads_back(
    od: Seq<Descriptor>,
    p: Seq<u8>,
    mid: Seq<Descriptor>,
    i: usize,
    desc: Descriptor,
    ob: Seq<Block>,
    nb: Seq<Block>,
    data: Seq<u8>,
    key: Key,
    r: Result<Vec<u8>, crate::types::ErrorKind>,
)
    requires
        wf(od),
        od.len() <= usize::MAX,
        creates(od, p, mid, Ok(i)),
        !(mid[i as int].is_dir_spec() && mid[i as int].content_size != 0),
        desc.name == mid[i as int].name,
        stores(ob, nb, data, key, desc),
        reads_data(nb, desc, key, r),
    ensures
        find_path(mid.update(i as int, desc), p) == Some(i as int),
        wf(mid.update(i as int, desc)),
        r is Ok && r->Ok_0@ == data,
{
    lemma_find_after_create(od, p, mid, i);
    crate::dir::lemma_walk_bounds(mid, 0, mid.len() as int, p, Seq::empty());
    lemma_find_after_overwrite(mid, p, i as int, desc);
    lemma_create_keeps_wf(od, p, mid, Ok(i));
    lemma_wf_overwrite(mid, 0, mid.len() as int, i as int, desc);
    lemma_read_back(ob, nb, data, key, desc, r);
}

/// Finishing an archive and opening it, twice over, gives the same
/// directory each time and keeps the data after the header.
pub proof fn lemma_finish_reopen_twice(
    b0: Seq<Block>,
    d0: Seq<Descriptor>,
    key: Key,
    out1: Seq<Block>,
    b1: Seq<Block>,
    d1: Seq<Descriptor>,
    out2: Seq<Block>,
    b2: Seq<Block>,
    d2: Seq<Descriptor>,
)
    requires
        HEADER_BLOCKS <= b0.len(),
        finishes(b0, d0, key, out1),
        out1.len() <= u32::MAX,
        opens_archive(out1, key, Ok((b1, d1))),
        finishes(b1, d1, key, out2),
        out2.len() <= u32::MAX,
        opens_archive(out2, key, Ok((b2, d2))),
    ensures
        d1 == d0,
        d2 == d0,
        b2.len() == b0.len(),
        forall|t: int| HEADER_BLOCKS <= t < b0.len() ==> b2[t] == b0[t],
{
    lemma_finish_then_open(b0, d0, key, out1);
    lemma_open_unique(out1, key, out1.take(b0.len() as int), d0, b1, d1);
    lemma_finish_then_open(b1, d1, key, out2);
    lemma_open_unique(out2, key, out2.take(b1.len() as int), d1, b2, d2);
}

/// Writing a file, finishing the archive and opening it again: the path
/// names the file, and reading it gives back exactly the bytes written.
pub proof fn lemma_write_finish_reopen_read(
    od: Seq<Descriptor>,
    p: Seq<u8>,
    mid: Seq<Descriptor>,
    i: usize,
    desc: Descriptor,
    ob: Seq<Block>,
    nb: Seq<Block>,
    data: Seq<u8>,
    key: Key,
    out: Seq<Block>,
    rb: Seq<Block>,
    rd: Seq<Descriptor>,
    r: Result<Vec<u8>, crate::types::ErrorKind>,
)
    requires
        wf(od),
        od.len() <= usize::MAX,
        HEADER_BLOCKS <= ob.len(),
        creates(od, p, mid, Ok(i)),
        !(mid[i as int].is_dir_spec() && mid[i as int].content_size != 0),
        desc.name == mid[i as int].name,
        stores(ob, nb, data, key, desc),
        finishes(nb, mid.update(i as int, desc), key, out),
        out.len() <= u32::MAX,
        opens_archive(out, key, Ok((rb, rd))),
        reads_data(rb, rd[i as int], key, r),
    ensures
        rd == mid.update(i as int, desc),
        find_path(rd, p) == Some(i as int),
        r is Ok && r->Ok_0@ == data,
{
    let nd = mid.update(i as int, desc);
    lemma_finish_then_open(nb, nd, key, out);
    lemma_open_unique(out, key, out.take(nb.len() as int), nd, rb, rd);
    lemma_find_after_create(od, p, mid, i);
    crate::dir::lemma_walk_bounds(mid, 0, mid.len() as int, p, Seq::empty());
    assert(rd[i as int] == desc);
    assert(extent(rb, desc.section) =~= extent(nb, desc.section));
    lemma_create_file_reads_back(od, p, mid, i, desc, ob, nb, data, key, r);
}

} // verus!
