use vstd::prelude::*;
use crate::types::Descriptor;
use vstd::string::StringSliceAdditionalSpecFns;
use vstd::slice::slice_subrange;
use crate::dir::{find_path, locate, Located};

verus! {

/// The glyphs that draw a tree.
#[derive(Copy, Clone, Debug, PartialEq, Eq, Structural)]
#[allow(non_camel_case_types)]
pub enum TreeArt {
    /// `+-`, `` ` ``, `|`.
    ASCII,
    /// Box-drawing characters.
    UNICODE,
}

/// The glyph before an entry's name: a branch for a directory, a stem for a
/// file, closed off for the last entry of its directory.
pub open spec fn glyph(art: TreeArt, dir: bool, last: bool) -> Seq<u8> {
    match art {
        TreeArt::ASCII => if dir {
            if last { seq![96u8, 45, 32] } else { seq![43u8, 45, 32] }
        } else {
            if last { seq![96u8, 32, 32] } else { seq![124u8, 32, 32] }
        },
        TreeArt::UNICODE => if dir {
            if last { seq![0xe2u8, 0x94, 0x94, 0xe2, 0x94, 0x80, 32] } else { seq![0xe2u8, 0x94, 0x9c, 0xe2, 0x94, 0x80, 32] }
        } else {
            if last { seq![0xe2u8, 0x94, 0x94, 32, 32] } else { seq![0xe2u8, 0x94, 0x82, 32, 32] }
        },
    }
}

/// What the lines below an entry start with: a rule while more siblings follow.
pub open spec fn indent(art: TreeArt, last: bool) -> Seq<u8> {
    if last {
        seq![32u8, 32, 32]
    } else {
        match art {
            TreeArt::ASCII => seq![124u8, 32, 32],
            TreeArt::UNICODE => seq![0xe2u8, 0x94, 0x82, 32, 32],
        }
    }
}

/// The lines that draw the siblings of `[lo, hi)` and their subtrees, each
/// line starting with `prefix`. A directory's name ends in `/`, and a
/// directory with contents is followed by a line of its children's indent.
#[verifier::opaque]
pub open spec fn render(d: Seq<Descriptor>, lo: int, hi: int, prefix: Seq<u8>, art: TreeArt) -> Seq<u8>
    decreases hi - lo,
{
    if lo < 0 || hi > d.len() || lo >= hi || d[lo].span() > hi - lo {
        Seq::empty()
    } else {
        let x = d[lo];
        let next = lo + x.span();
        let last = next >= hi;
        let line = prefix + glyph(art, x.is_dir_spec(), last) + x.name@ + (if x.is_dir_spec() { seq![47u8] } else { Seq::empty() }) + seq![10u8];
        let inner = prefix + indent(art, last);
        let kids = if x.is_dir_spec() && x.content_size > 0 {
            render(d, lo + 1, next, inner, art) + inner + seq![10u8]
        } else {
            Seq::empty()
        };
        line + kids + render(d, next, hi, prefix, art)
    }
}

fn push_all(out: &mut Vec<u8>, s: &Vec<u8>)
    ensures
        final(out)@ == old(out)@ + s@,
{
    let mut i: usize = 0;
    while i < s.len()
        invariant
            i <= s@.len(),
            out@ == old(out)@ + s@.take(i as int),
        decreases s@.len() - i,
    {
        out.push(s[i]);
        assert(s@.take(i + 1) =~= s@.take(i as int).push(s@[i as int]));
        i = i + 1;
    }
    assert(s@.take(s@.len() as int) =~= s@);
}

fn glyph_bytes(art: TreeArt, dir: bool, last: bool) -> (r: Vec<u8>)
    ensures
        r@ == glyph(art, dir, last),
{
    let r = match art {
        TreeArt::ASCII => if dir {
            if last { vec![96u8, 45, 32] } else { vec![43u8, 45, 32] }
        } else {
            if last { vec![96u8, 32, 32] } else { vec![124u8, 32, 32] }
        },
        TreeArt::UNICODE => if dir {
            if last { vec![0xe2u8, 0x94, 0x94, 0xe2, 0x94, 0x80, 32] } else { vec![0xe2u8, 0x94, 0x9c, 0xe2, 0x94, 0x80, 32] }
        } else {
            if last { vec![0xe2u8, 0x94, 0x94, 32, 32] } else { vec![0xe2u8, 0x94, 0x82, 32, 32] }
        },
    };
    assert(r@ =~= glyph(art, dir, last));
    r
}

fn indent_bytes(art: TreeArt, last: bool) -> (r: Vec<u8>)
    ensures
        r@ == indent(art, last),
{
    let r = if last {
        vec![32u8, 32, 32]
    } else {
        match art {
            TreeArt::ASCII => vec![124u8, 32, 32],
            TreeArt::UNICODE => vec![0xe2u8, 0x94, 0x82, 32, 32],
        }
    };
    assert(r@ =~= indent(art, last));
    r
}

/// The lines of the entry at `lo` of the window `[lo, hi)`: its own line, then
/// those of its subtree.
pub open spec fn entry(d: Seq<Descriptor>, lo: int, hi: int, prefix: Seq<u8>, art: TreeArt) -> Seq<u8> {
    let x = d[lo];
    let next = lo + x.span();
    let last = next >= hi;
    let line = prefix + glyph(art, x.is_dir_spec(), last) + x.name@ + (if x.is_dir_spec() { seq![47u8] } else { Seq::empty() }) + seq![10u8];
    let inner = prefix + indent(art, last);
    line + if x.is_dir_spec() && x.content_size > 0 {
        render(d, lo + 1, next, inner, art) + inner + seq![10u8]
    } else {
        Seq::empty()
    }
}

proof fn lemma_render_step(d: Seq<Descriptor>, lo: int, hi: int, prefix: Seq<u8>, art: TreeArt)
    requires
        0 <= lo < hi <= d.len(),
        d[lo].span() <= hi - lo,
    ensures
        render(d, lo, hi, prefix, art) == entry(d, lo, hi, prefix, art) + render(d, lo + d[lo].span(), hi, prefix, art),
{
    reveal(render);
    let x = d[lo];
    let next = lo + x.span();
    let last = next >= hi;
    let line = prefix + glyph(art, x.is_dir_spec(), last) + x.name@ + (if x.is_dir_spec() { seq![47u8] } else { Seq::empty() }) + seq![10u8];
    let inner = prefix + indent(art, last);
    let kids = if x.is_dir_spec() && x.content_size > 0 {
        render(d, lo + 1, next, inner, art) + inner + seq![10u8]
    } else {
        Seq::empty()
    };
    assert(line + kids + render(d, next, hi, prefix, art) =~= (line + kids) + render(d, next, hi, prefix, art));
}

/// Appends the lines of the entry at `i` of the window `[i, hi)`.
fn render_entry(d: &[Descriptor], i: usize, hi: usize, prefix: &Vec<u8>, art: TreeArt, out: &mut Vec<u8>) -> (next: usize)
    requires
        i < hi <= d@.len(),
        d@[i as int].span() <= hi - i,
    ensures
        final(out)@ == old(out)@ + entry(d@, i as int, hi as int, prefix@, art),
        next == i + d@[i as int].span(),
    decreases hi - i, 0nat,
{
    let x = d[i];
    let next = if x.content_type == 0 { i + 1 + x.content_size as usize } else { i + 1 };
    let last = next >= hi;
    let ghost before = out@;
    push_all(out, prefix);
    push_all(out, &glyph_bytes(art, x.content_type == 0, last));
    push_all(out, &x.name());
    if x.content_type == 0 {
        out.push(47u8);
    }
    out.push(10u8);
    let ghost line = prefix@ + glyph(art, x.is_dir_spec(), last) + x.name@ + (if x.is_dir_spec() { seq![47u8] } else { Seq::<u8>::empty() }) + seq![10u8];
    assert(out@ =~= before + line);
    if x.content_type == 0 && x.content_size > 0 {
        let mut inner = prefix.clone();
        assert(inner@ == prefix@);
        push_all(&mut inner, &indent_bytes(art, last));
        let ghost mid = out@;
        render_into(d, i + 1, next, &inner, art, out);
        push_all(out, &inner);
        out.push(10u8);
        assert(out@ =~= before + (line + (render(d@, i + 1, next as int, inner@, art) + inner@ + seq![10u8])));
    } else {
        assert(out@ =~= before + (line + Seq::<u8>::empty()));
    }
    next
}

/// Appends the drawing of the siblings of `[lo, hi)` to `out`.
fn render_into(d: &[Descriptor], lo: usize, hi: usize, prefix: &Vec<u8>, art: TreeArt, out: &mut Vec<u8>)
    requires
        lo <= hi <= d@.len(),
    ensures
        final(out)@ == old(out)@ + render(d@, lo as int, hi as int, prefix@, art),
    decreases hi - lo, 1nat,
{
    let mut i = lo;
    assert(old(out)@ + render(d@, lo as int, hi as int, prefix@, art) == out@ + render(d@, lo as int, hi as int, prefix@, art));
    while i < hi
        invariant
            lo <= i <= hi <= d@.len(),
            old(out)@ + render(d@, lo as int, hi as int, prefix@, art) == out@ + render(d@, i as int, hi as int, prefix@, art),
        decreases hi - i,
    {
        if d[i].content_type == 0 && d[i].content_size as u64 >= (hi - i) as u64 {
            reveal(render);
            assert(render(d@, i as int, hi as int, prefix@, art) == Seq::<u8>::empty());
            assert(out@ =~= out@ + Seq::<u8>::empty());
            return;
        }
        proof {
            lemma_render_step(d@, i as int, hi as int, prefix@, art);
        }
        let ghost before = out@;
        let next = render_entry(d, i, hi, prefix, art, out);
        assert(before + render(d@, i as int, hi as int, prefix@, art) =~= out@ + render(d@, next as int, hi as int, prefix@, art));
        i = next;
    }
    reveal(render);
    assert(out@ =~= out@ + render(d@, i as int, hi as int, prefix@, art));
}

pub uninterp spec fn lossy_utf8(b: Seq<u8>) -> Seq<char>;

/// Relies on `String::from_utf8_lossy`: the bytes decoded as UTF-8, with any
/// invalid sequence replaced; valid input is decoded unchanged.
#[verifier::external_body]
fn string_from_utf8_lossy(b: &Vec<u8>) -> (r: String)
    ensures
        r@ == lossy_utf8(b@),
        vstd::utf8::valid_utf8(b@) ==> r@ == vstd::utf8::decode_utf8(b@),
{
    String::from_utf8_lossy(b).into_owned()
}

/// A drawing of a directory window as an indented tree.
pub struct DirFmt<'a> {
    pub root: &'a str,
    pub dir: &'a [Descriptor],
    pub art: TreeArt,
}

/// The whole drawing: the root's name and `/`, then its entries.
pub open spec fn drawing(root: Seq<u8>, d: Seq<Descriptor>, art: TreeArt) -> Seq<u8> {
    root + seq![47u8, 10u8] + render(d, 0, d.len() as int, Seq::empty(), art)
}

impl<'a> DirFmt<'a> {
    pub fn new(root: &'a str, dir: &'a [Descriptor], art: &TreeArt) -> (r: DirFmt<'a>)
        ensures
            r.root == root,
            r.dir == dir,
            r.art == *art,
    {
        DirFmt { root, dir, art: *art }
    }

    /// The drawing as bytes.
    pub fn to_bytes(&self) -> (r: Vec<u8>)
        ensures
            r@ == drawing(self.root.spec_bytes(), self.dir@, self.art),
    {
        let mut out: Vec<u8> = Vec::new();
        let rb = self.root.as_bytes();
        let mut i: usize = 0;
        while i < rb.len()
            invariant
                i <= rb@.len(),
                out@ == rb@.take(i as int),
            decreases rb@.len() - i,
        {
            out.push(rb[i]);
            assert(rb@.take(i + 1) =~= rb@.take(i as int).push(rb@[i as int]));
            i = i + 1;
        }
        assert(rb@.take(rb@.len() as int) =~= rb@);
        out.push(47u8);
        out.push(10u8);
        let prefix: Vec<u8> = Vec::new();
        render_into(self.dir, 0, self.dir.len(), &prefix, self.art, &mut out);
        out
    }

    /// The drawing as text.
    pub fn to_string(&self) -> (r: String)
        ensures
            r@ == lossy_utf8(drawing(self.root.spec_bytes(), self.dir@, self.art)),
    {
        string_from_utf8_lossy(&self.to_bytes())
    }
}

/// What `display_children` gives for directory `d`.
pub open spec fn displays<'a>(d: Seq<Descriptor>, path: Option<&'a str>, art: TreeArt, r: Option<DirFmt<'a>>) -> bool {
    match path {
        None => r matches Some(f) && f.dir@ == d && f.art == art,
        Some(p) => match find_path(d, p.spec_bytes()) {
            Some(i) => if d[i].is_dir_spec() && i + d[i].span() <= d.len() {
                r matches Some(f) && f.root == p && f.art == art && f.dir@ == d.subrange(i + 1, i + d[i].span())
            } else {
                r is None
            },
            None => r is None,
        },
    }
}

/// A drawing of the directory at `path`, or of the whole directory under the
/// name `.`; `None` when `path` names nothing or a file.
pub fn display_children<'a>(d: &'a [Descriptor], path: Option<&'a str>, art: &TreeArt) -> (r: Option<DirFmt<'a>>)
    ensures
        displays(d@, path, *art, r),
{
    match path {
        None => Some(DirFmt::new(".", d, art)),
        Some(p) => match locate(d, p.as_bytes()) {
            Located::Found(i, _) => {
                let x = &d[i];
                if x.content_type != 0 || x.content_size as u64 >= (d.len() - i) as u64 {
                    return None;
                }
                let end = i + 1 + x.content_size as usize;
                Some(DirFmt::new(p, slice_subrange(d, i + 1, end), art))
            },
            _ => None,
        },
    }
}

} // verus!
