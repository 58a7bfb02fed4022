//! Extraction of registry references from Nix source text.
//!
//! The source is parsed by rnix, and the syntax tree is walked in preorder.
//! Every maximal selection `registry.a.b` whose chain consists of plain
//! identifiers only, rooted at the configured registry name, becomes one
//! reference spanning the whole selection expression.
use crate::rewriter::span_fits;
use crate::text::{lemma_utf8_concat, lemma_utf8_dot, utf8};
use rnix::{SyntaxKind, WalkEvent};
use vstd::prelude::*;
use vstd::string::*;
use vstd::utf8::*;

verus! {

/// A reference to a registry path found in source.
#[derive(Debug, Clone)]
pub struct RegistryRef {
    /// Dotted path after the registry name, e.g. `"home.alice"`.
    pub path: String,
    /// Source file containing the reference.
    pub file: String,
    /// Line number, 1-indexed.
    pub line: usize,
    /// Column number, 1-indexed.
    pub column: usize,
    /// Byte offset of the start of the entire select expression.
    pub start_offset: usize,
    /// Byte offset of the end of the entire select expression.
    pub end_offset: usize,
}

impl RegistryRef {
    /// A field-by-field copy.
    pub fn duplicate(&self) -> (r: RegistryRef)
        ensures
            r.same_as(self),
    {
        RegistryRef {
            path: self.path.clone(),
            file: self.file.clone(),
            line: self.line,
            column: self.column,
            start_offset: self.start_offset,
            end_offset: self.end_offset,
        }
    }

    /// Equal in every field, by value.
    pub open spec fn same_as(&self, o: &RegistryRef) -> bool {
        &&& self.path@ == o.path@
        &&& self.file@ == o.file@
        &&& self.line == o.line
        &&& self.column == o.column
        &&& self.start_offset == o.start_offset
        &&& self.end_offset == o.end_offset
    }
}

/// The kinds of syntax node that extraction tells apart.
#[derive(Debug, Clone, Copy, PartialEq, Eq)]
pub enum NodeKind {
    /// An attribute selection `e.a.b`.
    Select,
    /// An identifier.
    Ident,
    /// The attribute path of a selection.
    Attrpath,
    /// Any other node.
    Other,
}

/// One step of a preorder walk over the syntax tree: entering a node of
/// some kind with its byte range `[start, end)`, or leaving the node most
/// recently entered and not yet left.
#[derive(Debug, Clone, Copy, PartialEq, Eq)]
pub enum WalkStep {
    Enter(NodeKind, usize, usize),
    Leave,
}

/// What rnix makes of a source text: the preorder walk of the syntax tree
/// it builds, and whether it reported syntax errors.
pub uninterp spec fn nix_parse(source: Seq<char>) -> (Seq<WalkStep>, bool);

/// The preorder walk of the syntax tree that rnix builds for a source text.
pub open spec fn nix_walk(source: Seq<char>) -> Seq<WalkStep> {
    nix_parse(source).0
}

/// Relies on `rnix::Root::parse`, which builds the syntax tree of a source
/// text (recovering from syntax errors), and on rowan's
/// `SyntaxNode::preorder`, which walks it. The walk depends on the text
/// alone. The flag tells whether the parser reported errors. Text sizes in
/// rowan are 32-bit, so longer sources are left out.
#[verifier::external_body]
fn parse_nix(source: &str) -> (r: (Vec<WalkStep>, bool))
    requires
        utf8(source@).len() <= u32::MAX,
    ensures
        r.0@ == nix_parse(source@).0,
        r.1 == nix_parse(source@).1,
{
    let parse = rnix::Root::parse(source);
    let steps = parse.syntax().preorder().map(|event| match event {
        WalkEvent::Enter(node) => WalkStep::Enter(
            match node.kind() {
                SyntaxKind::NODE_SELECT => NodeKind::Select,
                SyntaxKind::NODE_IDENT => NodeKind::Ident,
                SyntaxKind::NODE_ATTRPATH => NodeKind::Attrpath,
                _ => NodeKind::Other,
            },
            node.text_range().start().into(),
            node.text_range().end().into(),
        ),
        WalkEvent::Leave(_) => WalkStep::Leave,
    }).collect();
    (steps, !parse.errors().is_empty())
}

// ---------------------------------------------------------------------------
// The model of extraction, over the walk `ev` and the source bytes `src`.
// ---------------------------------------------------------------------------

/// Scanning from `j` with `open` nodes entered and not left, the index of
/// the step that leaves the outermost of them.
pub open spec fn close_from(ev: Seq<WalkStep>, j: int, open: nat) -> int
    decreases ev.len() - j,
{
    if j >= ev.len() || j < 0 {
        ev.len() as int
    } else {
        match ev[j] {
            WalkStep::Enter(..) => close_from(ev, j + 1, open + 1),
            WalkStep::Leave => if open <= 1 {
                j
            } else {
                close_from(ev, j + 1, (open - 1) as nat)
            },
        }
    }
}

/// The index of the step that leaves the node entered at `i`.
pub open spec fn subtree_end(ev: Seq<WalkStep>, i: int) -> int {
    close_from(ev, i, 0)
}

/// From step `j` on: identifier leaves, one after another, up to the step
/// that leaves their parent; their texts in order. Any other child gives `None`.
pub open spec fn ident_run(ev: Seq<WalkStep>, j: int, src: Seq<u8>) -> Option<Seq<Seq<u8>>>
    decreases ev.len() - j,
{
    if j >= ev.len() || j < 0 {
        None
    } else {
        match ev[j] {
            WalkStep::Leave => Some(Seq::empty()),
            WalkStep::Enter(NodeKind::Ident, s, e) => if j + 1 < ev.len() && ev[j + 1]
                is Leave && span_fits(src, s as int, e as int) && s < e {
                match ident_run(ev, j + 2, src) {
                    Some(rest) => Some(seq![src.subrange(s as int, e as int)] + rest),
                    None => None,
                }
            } else {
                None
            },
            _ => None,
        }
    }
}

/// The segments of the attribute path entered at step `k`: one or more
/// plain identifiers.
pub open spec fn attr_segments(ev: Seq<WalkStep>, k: int, src: Seq<u8>) -> Option<Seq<Seq<u8>>> {
    if 0 <= k < ev.len() && ev[k] matches WalkStep::Enter(NodeKind::Attrpath, _, _) {
        match ident_run(ev, k + 1, src) {
            Some(r) => if r.len() > 0 {
                Some(r)
            } else {
                None
            },
            None => None,
        }
    } else {
        None
    }
}

/// The segments selected by the selection entered at step `i`, when its
/// chain of bases ends in the identifier `root` and every link is a plain
/// identifier.
pub open spec fn select_path(ev: Seq<WalkStep>, i: int, root: Seq<u8>, src: Seq<u8>) -> Option<
    Seq<Seq<u8>>,
>
    decreases ev.len() - i,
{
    let b = i + 1;
    if i < 0 || b >= ev.len() || !(ev[i] matches WalkStep::Enter(NodeKind::Select, _, _)) {
        None
    } else {
        match ev[b] {
            WalkStep::Enter(NodeKind::Ident, s, e) => if b + 1 < ev.len() && ev[b + 1] is Leave
                && s as int == start_of(ev[i]) && span_fits(src, s as int, e as int)
                && src.subrange(s as int, e as int) == root {
                attr_segments(ev, b + 2, src)
            } else {
                None
            },
            WalkStep::Enter(NodeKind::Select, bs, _) => if bs as int != start_of(ev[i]) {
                None
            } else {
                match select_path(ev, b, root, src) {
                Some(base) => match attr_segments(ev, subtree_end(ev, b) + 1, src) {
                    Some(segs) => Some(base + segs),
                    None => None,
                },
                None => None,
            }
            },
            _ => None,
        }
    }
}

/// Where the node entered at a step begins.
pub open spec fn start_of(step: WalkStep) -> int {
    match step {
        WalkStep::Enter(_, s, _) => s as int,
        WalkStep::Leave => -1,
    }
}

/// The step at `i` enters a selection that is the base of another one.
pub open spec fn is_base_of_select(ev: Seq<WalkStep>, i: int) -> bool {
    i > 0 && ev[i - 1] matches WalkStep::Enter(NodeKind::Select, _, _)
}

/// Segments joined by dots.
pub open spec fn dotted(xs: Seq<Seq<u8>>) -> Seq<u8>
    decreases xs.len(),
{
    if xs.len() == 0 {
        Seq::empty()
    } else if xs.len() == 1 {
        xs[0]
    } else {
        dotted(xs.drop_last()) + seq![46u8] + xs.last()
    }
}

/// A found reference in the model: its path's bytes and its byte span.
pub type Found = (Seq<u8>, int, int);

/// What the step at `i` contributes: the path and span of a maximal
/// selection rooted at `root`, or nothing.
pub open spec fn found_at(ev: Seq<WalkStep>, i: int, root: Seq<u8>, src: Seq<u8>) -> Option<Found> {
    match ev[i] {
        WalkStep::Enter(NodeKind::Select, s, e) => if !is_base_of_select(ev, i) && s < e
            && span_fits(src, s as int, e as int) {
            match select_path(ev, i, root, src) {
                Some(segs) => Some((dotted(segs), s as int, e as int)),
                None => None,
            }
        } else {
            None
        },
        _ => None,
    }
}

/// The references found in the first `n` steps of the walk, in order.
pub open spec fn found_upto(ev: Seq<WalkStep>, n: int, root: Seq<u8>, src: Seq<u8>) -> Seq<Found>
    decreases n,
{
    if n <= 0 {
        Seq::empty()
    } else {
        let pre = found_upto(ev, n - 1, root, src);
        match found_at(ev, n - 1, root, src) {
            Some(f) => pre.push(f),
            None => pre,
        }
    }
}

/// The references of a source text, in document order.
pub open spec fn references_in(source: Seq<char>, root: Seq<char>) -> Seq<Found> {
    let ev = nix_walk(source);
    found_upto(ev, ev.len() as int, utf8(root), utf8(source))
}

/// Line and column (both from 1) of the byte offset `n`: lines end at
/// newline bytes, and each character counts once, at its first byte.
pub open spec fn line_col(b: Seq<u8>, n: int) -> (int, int)
    decreases n,
{
    if n <= 0 {
        (1, 1)
    } else {
        let (l, c) = line_col(b, n - 1);
        if b[n - 1] == 10u8 {
            (l + 1, 1)
        } else if is_continuation_byte(b[n - 1]) {
            (l, c)
        } else {
            (l, c + 1)
        }
    }
}

// ---------------------------------------------------------------------------
// Extraction.
// ---------------------------------------------------------------------------

proof fn lemma_boundary_in_suffix(b: Seq<u8>, s: int, e: int)
    requires
        valid_utf8(b),
        span_fits(b, s, e),
    ensures
        valid_utf8(b.subrange(s, b.len() as int)),
        is_char_boundary(b.subrange(s, b.len() as int), e - s),
{
    let rest = b.subrange(s, b.len() as int);
    valid_utf8_split(b, s);
    is_char_boundary_start_end_of_seq(rest);
    if e < b.len() {
        is_char_boundary_iff_not_is_continuation_byte(b, e);
        is_char_boundary_iff_not_is_continuation_byte(rest, e - s);
        assert(rest[e - s] == b[e]);
    } else {
        assert(e - s == rest.len());
    }
}

/// The text of the byte span `[s, e)`, which fits the source.
fn span_text(source: &str, s: usize, e: usize) -> (r: &str)
    requires
        span_fits(utf8(source@), s as int, e as int),
    ensures
        utf8(r@) == utf8(source@).subrange(s as int, e as int),
{
    proof {
        encode_utf8_valid_utf8(source@);
        lemma_boundary_in_suffix(utf8(source@), s as int, e as int);
    }
    let (_, rest) = source.split_at(s);
    let (piece, _) = rest.split_at(e - s);
    assert(utf8(source@).subrange(s as int, utf8(source@).len() as int).subrange(0, e - s)
        =~= utf8(source@).subrange(s as int, e as int));
    piece
}

/// Whether `[s, e)` fits the source.
fn fits(src: &[u8], source: &str, s: usize, e: usize) -> (r: bool)
    requires
        src@ == utf8(source@),
    ensures
        r == span_fits(utf8(source@), s as int, e as int),
{
    s <= e && e <= src.len() && source.is_char_boundary(s) && source.is_char_boundary(e)
}

fn bytes_match(src: &[u8], s: usize, e: usize, word: &[u8]) -> (r: bool)
    requires
        s <= e <= src@.len(),
    ensures
        r == (src@.subrange(s as int, e as int) == word@),
{
    if e - s != word.len() {
        return false;
    }
    let mut i: usize = 0;
    while i < word.len()
        invariant
            s <= e <= src@.len(),
            e - s == word@.len(),
            i <= word@.len(),
            forall|k: int| 0 <= k < i ==> src@[s + k] == word@[k],
        decreases word@.len() - i,
    {
        if src[s + i] != word[i] {
            assert(src@.subrange(s as int, e as int)[i as int] != word@[i as int]);
            return false;
        }
        i = i + 1;
    }
    assert(src@.subrange(s as int, e as int) =~= word@);
    true
}

/// The index of the step that leaves the node entered at `i`.
fn close_of(ev: &Vec<WalkStep>, i: usize) -> (r: usize)
    requires
        i <= ev@.len(),
    ensures
        r == subtree_end(ev@, i as int),
{
    let mut j: usize = i;
    let mut open: usize = 0;
    while j < ev.len()
        invariant
            i <= j <= ev@.len(),
            open <= j - i,
            close_from(ev@, i as int, 0) == close_from(ev@, j as int, open as nat),
        decreases ev@.len() - j,
    {
        match ev[j] {
            WalkStep::Enter(..) => {
                open = open + 1;
            },
            WalkStep::Leave => {
                if open <= 1 {
                    return j;
                }
                open = open - 1;
            },
        }
        j = j + 1;
    }
    j
}

/// Appends `seg` to a path being built; `first` tells that no segment is there yet.
fn push_segment(out: &mut String, seg: &str, first: bool, Ghost(segs): Ghost<Seq<Seq<u8>>>)
    requires
        utf8(old(out)@) == dotted(segs),
        first <==> segs.len() == 0,
    ensures
        utf8(final(out)@) == dotted(segs.push(utf8(seg@))),
{
    let ghost before = out@;
    let ghost nsegs = segs.push(utf8(seg@));
    assert(nsegs.drop_last() =~= segs);
    if first {
        assert(utf8(before) == Seq::<u8>::empty());
        assert(before =~= Seq::<char>::empty()) by {
            if before.len() > 0 {
                assert(utf8(before) == encode_scalar(before[0] as u32) + utf8(before.drop_first()));
            }
        }
        out.append(seg);
        assert(out@ =~= seg@);
        assert(dotted(nsegs) == nsegs[0]);
    } else {
        proof {
            reveal_strlit(".");
        }
        out.append(".");
        out.append(seg);
        proof {
            assert(".".view() =~= seq!['.']);
            lemma_utf8_concat(before, seq!['.']);
            lemma_utf8_concat(before + seq!['.'], seg@);
            lemma_utf8_dot();
        }
    }
}

/// Appends the identifiers of the attribute path entered at step `k` to a
/// path holding the segments `prev`.
fn take_attr_segments(
    ev: &Vec<WalkStep>,
    k: usize,
    src: &[u8],
    source: &str,
    out: &mut String,
    has_prev: bool,
    Ghost(prev): Ghost<Seq<Seq<u8>>>,
) -> (ok: bool)
    requires
        src@ == utf8(source@),
        utf8(old(out)@) == dotted(prev),
        has_prev <==> prev.len() > 0,
    ensures
        ok == attr_segments(ev@, k as int, src@) is Some,
        ok ==> utf8(final(out)@) == dotted(prev + attr_segments(ev@, k as int, src@)->0),
{
    if k >= ev.len() {
        return false;
    }
    match ev[k] {
        WalkStep::Enter(NodeKind::Attrpath, _, _) => {},
        _ => {
            return false;
        },
    }
    let ghost whole = ident_run(ev@, k + 1, src@);
    let ghost mut acc: Seq<Seq<u8>> = Seq::empty();
    let mut j: usize = k + 1;
    let mut count: usize = 0;
    assert(acc + whole->0 =~= whole->0);
    loop
        invariant
            src@ == utf8(source@),
            k < ev@.len(),
            ev@[k as int] matches WalkStep::Enter(NodeKind::Attrpath, _, _),
            k < j <= ev@.len() + 1,
            count <= j,
            whole == ident_run(ev@, k as int + 1, src@),
            whole == (match ident_run(ev@, j as int, src@) {
                Some(rest) => Some(acc + rest),
                None => None::<Seq<Seq<u8>>>,
            }),
            count == acc.len(),
            utf8(out@) == dotted(prev + acc),
            has_prev <==> prev.len() > 0,
        decreases ev@.len() + 2 - j,
    {
        if j >= ev.len() {
            return false;
        }
        match ev[j] {
            WalkStep::Leave => {
                assert(acc + Seq::<Seq<u8>>::empty() =~= acc);
                if count == 0 {
                    return false;
                }
                return true;
            },
            WalkStep::Enter(NodeKind::Ident, s, e) => {
                if !(j + 1 < ev.len()) {
                    return false;
                }
                if !matches!(ev[j + 1], WalkStep::Leave) || !fits(src, source, s, e) || s >= e {
                    return false;
                }
                let seg = span_text(source, s, e);
                let ghost piece = src@.subrange(s as int, e as int);
                assert(prev + acc.push(piece) =~= (prev + acc).push(piece));
                push_segment(out, seg, !has_prev && count == 0, Ghost(prev + acc));
                proof {
                    let rest = ident_run(ev@, j + 2, src@);
                    if rest is Some {
                        assert(acc + (seq![piece] + rest->0) =~= acc.push(piece) + rest->0);
                    }
                    acc = acc.push(piece);
                }
                count = count + 1;
                j = j + 2;
            },
            _ => {
                return false;
            },
        }
    }
}

proof fn lemma_ident_run_nonempty(ev: Seq<WalkStep>, j: int, src: Seq<u8>)
    ensures
        ident_run(ev, j, src) matches Some(r) ==> forall|k: int|
            0 <= k < r.len() ==> #[trigger] r[k].len() > 0,
    decreases ev.len() - j,
{
    if 0 <= j < ev.len() {
        if let WalkStep::Enter(NodeKind::Ident, s, e) = ev[j] {
            if j + 2 <= ev.len() {
                lemma_ident_run_nonempty(ev, j + 2, src);
            }
            if let Some(r) = ident_run(ev, j, src) {
                let rest = ident_run(ev, j + 2, src)->0;
                assert forall|k: int| 0 <= k < r.len() implies #[trigger] r[k].len() > 0 by {
                    if k > 0 {
                        assert(r[k] == rest[k - 1]);
                    }
                }
            }
        }
    }
}

/// A selection's path has at least one segment, none of them empty, and
/// the text where the selection begins is the root name.
proof fn lemma_select_path_nonempty(ev: Seq<WalkStep>, i: int, root: Seq<u8>, src: Seq<u8>)
    ensures
        select_path(ev, i, root, src) matches Some(segs) ==> {
            &&& segs.len() > 0
            &&& forall|k: int| 0 <= k < segs.len() ==> #[trigger] segs[k].len() > 0
            &&& 0 <= start_of(ev[i]) && start_of(ev[i]) + root.len() <= src.len()
            &&& src.subrange(start_of(ev[i]), start_of(ev[i]) + root.len()) == root
        },
    decreases ev.len() - i,
{
    if i >= 0 && i + 1 < ev.len() {
        if ev[i + 1] matches WalkStep::Enter(NodeKind::Select, _, _) {
            lemma_select_path_nonempty(ev, i + 1, root, src);
            let c = subtree_end(ev, i + 1) + 1;
            lemma_ident_run_nonempty(ev, c + 1, src);
            if let Some(segs) = select_path(ev, i, root, src) {
                let base = select_path(ev, i + 1, root, src)->0;
                let more = attr_segments(ev, c, src)->0;
                assert(segs == base + more);
                assert forall|k: int| 0 <= k < segs.len() implies #[trigger] segs[k].len() > 0 by {
                    if k >= base.len() {
                        assert(segs[k] == more[k - base.len()]);
                    } else {
                        assert(segs[k] == base[k]);
                    }
                }
            }
        } else {
            lemma_ident_run_nonempty(ev, i + 4, src);
            if let Some(segs) = select_path(ev, i, root, src) {
                if let WalkStep::Enter(_, s, e) = ev[i + 1] {
                    assert(src.subrange(s as int, e as int) == root);
                    assert(root.len() == e - s);
                }
            }
        }
    }
}

/// A dotted path of non-empty segments is not empty.
proof fn lemma_dotted_nonempty(xs: Seq<Seq<u8>>)
    requires
        xs.len() > 0,
        forall|k: int| 0 <= k < xs.len() ==> #[trigger] xs[k].len() > 0,
    ensures
        dotted(xs).len() > 0,
{
    if xs.len() == 1 {
        assert(xs[0].len() > 0);
    }
}

/// Builds into `out` the path selected by the selection entered at step `i`.
fn resolve(
    ev: &Vec<WalkStep>,
    i: usize,
    root: &[u8],
    src: &[u8],
    source: &str,
    out: &mut String,
) -> (ok: bool)
    requires
        src@ == utf8(source@),
        old(out)@.len() == 0,
    ensures
        ok == select_path(ev@, i as int, root@, src@) is Some,
        ok ==> utf8(final(out)@) == dotted(select_path(ev@, i as int, root@, src@)->0),
    decreases ev@.len() - i,
{
    if i >= ev.len() || i + 1 >= ev.len() {
        return false;
    }
    let start = match ev[i] {
        WalkStep::Enter(NodeKind::Select, s0, _) => s0,
        _ => {
            return false;
        },
    };
    let b = i + 1;
    match ev[b] {
        WalkStep::Enter(NodeKind::Ident, s, e) => {
            if b + 1 < ev.len() && matches!(ev[b + 1], WalkStep::Leave) && s == start && fits(
                src,
                source,
                s,
                e,
            ) && bytes_match(
                src,
                s,
                e,
                root,
            ) {
                assert(utf8(out@) =~= dotted(Seq::<Seq<u8>>::empty()));
                let ok = take_attr_segments(ev, b + 2, src, source, out, false, Ghost(Seq::empty()));
                proof {
                    let segs = attr_segments(ev@, b + 2, src@);
                    if ok {
                        assert(Seq::<Seq<u8>>::empty() + segs->0 =~= segs->0);
                    }
                }
                ok
            } else {
                false
            }
        },
        WalkStep::Enter(NodeKind::Select, bs, _) => {
            if bs != start {
                return false;
            }
            if !resolve(ev, b, root, src, source, out) {
                return false;
            }
            let c = close_of(ev, b);
            if c >= ev.len() {
                return false;
            }
            let ghost base = select_path(ev@, b as int, root@, src@)->0;
            proof {
                lemma_select_path_nonempty(ev@, b as int, root@, src@);
            }
            take_attr_segments(ev, c + 1, src, source, out, true, Ghost(base))
        },
        _ => false,
    }
}

/// Line and column, both 1-indexed, of the byte `offset` of `source`
/// (of its end, for an offset past it).
pub fn offset_to_line_col(source: &str, offset: usize) -> (r: (usize, usize))
    requires
        utf8(source@).len() < usize::MAX,
    ensures
        (r.0 as int, r.1 as int) == line_col(
            utf8(source@),
            if offset <= utf8(source@).len() {
                offset as int
            } else {
                utf8(source@).len() as int
            },
        ),
{
    let bytes = source.as_bytes();
    let mut line: usize = 1;
    let mut col: usize = 1;
    let mut i: usize = 0;
    while i < offset && i < bytes.len()
        invariant
            bytes@ == utf8(source@),
            bytes@.len() < usize::MAX,
            i <= bytes@.len(),
            i <= offset,
            1 <= line <= i + 1,
            1 <= col <= i + 1,
            (line as int, col as int) == line_col(bytes@, i as int),
        decreases bytes@.len() - i,
    {
        let b = bytes[i];
        if b == 10u8 {
            line = line + 1;
            col = 1;
        } else if b & 0xC0u8 != 0x80u8 {
            assert(!is_continuation_byte(b)) by (bit_vector)
                requires
                    b & 0xC0u8 != 0x80u8,
            ;
            col = col + 1;
        } else {
            assert(is_continuation_byte(b)) by (bit_vector)
                requires
                    b & 0xC0u8 == 0x80u8,
            ;
        }
        i = i + 1;
    }
    (line, col)
}

/// A reference found in a source is described by `r`.
/// It also has a non-empty path, and a non-empty span inside the text that
/// begins with the root name.
pub open spec fn describes(r: RegistryRef, f: Found, file: Seq<char>, src: Seq<u8>, root: Seq<u8>) -> bool {
    &&& utf8(r.path@) == f.0
    &&& r.path@.len() > 0
    &&& r.start_offset < r.end_offset <= src.len()
    &&& r.start_offset + root.len() <= src.len()
    &&& src.subrange(r.start_offset as int, r.start_offset + root.len()) == root
    &&& r.start_offset == f.1
    &&& r.end_offset == f.2
    &&& r.file@ == file
    &&& (r.line as int, r.column as int) == line_col(
        src,
        if f.1 <= src.len() {
            f.1
        } else {
            src.len() as int
        },
    )
}

/// The references of `source` that the preorder walk `walk` of its syntax
/// tree shows: every maximal `registry_name.X.Y...` selection, in walk order.
pub fn refs_from_walk(walk: &[WalkStep], source: &str, file: &str, registry_name: &str) -> (r: Vec<
    RegistryRef,
>)
    requires
        utf8(source@).len() < usize::MAX,
    ensures
        r@.len() == found_upto(
            walk@,
            walk@.len() as int,
            utf8(registry_name@),
            utf8(source@),
        ).len(),
        forall|k: int|
            0 <= k < r@.len() ==> describes(
                #[trigger] r@[k],
                found_upto(walk@, walk@.len() as int, utf8(registry_name@), utf8(source@))[k],
                file@,
                utf8(source@),
                utf8(registry_name@),
            ),
{
    let ev = slice_to_steps(walk);
    let src = source.as_bytes();
    let root = registry_name.as_bytes();
    let mut refs: Vec<RegistryRef> = Vec::new();
    let mut i: usize = 0;
    while i < ev.len()
        invariant
            src@ == utf8(source@),
            root@ == utf8(registry_name@),
            src@.len() < usize::MAX,
            ev@ == walk@,
            i <= ev@.len(),
            refs@.len() == found_upto(ev@, i as int, root@, src@).len(),
            forall|k: int|
                0 <= k < refs@.len() ==> describes(
                    #[trigger] refs@[k],
                    found_upto(ev@, i as int, root@, src@)[k],
                    file@,
                    src@,
                    root@,
                ),
        decreases ev@.len() - i,
    {
        let ghost pre = found_upto(ev@, i as int, root@, src@);
        if let WalkStep::Enter(NodeKind::Select, s, e) = ev[i] {
            let nested = i > 0 && match ev[i - 1] {
                WalkStep::Enter(NodeKind::Select, _, _) => true,
                _ => false,
            };
            if !nested && s < e && fits(src, source, s, e) {
                let mut path = String::new();
                if resolve(&ev, i, root, src, source, &mut path) {
                    proof {
                        lemma_select_path_nonempty(ev@, i as int, root@, src@);
                        let segs = select_path(ev@, i as int, root@, src@)->0;
                        lemma_dotted_nonempty(segs);
                        if path@.len() == 0 {
                            assert(utf8(path@) =~= Seq::<u8>::empty());
                        }
                    }
                    let (line, column) = offset_to_line_col(source, s);
                    let r = RegistryRef {
                        path,
                        file: String::from_str(file),
                        line,
                        column,
                        start_offset: s,
                        end_offset: e,
                    };
                    refs.push(r);
                    assert(found_upto(ev@, i + 1, root@, src@) == pre.push(
                        found_at(ev@, i as int, root@, src@)->0,
                    ));
                }
            }
        }
        i = i + 1;
    }
    refs
}

fn slice_to_steps(walk: &[WalkStep]) -> (r: Vec<WalkStep>)
    ensures
        r@ == walk@,
{
    let mut r: Vec<WalkStep> = Vec::new();
    let mut i: usize = 0;
    while i < walk.len()
        invariant
            i <= walk@.len(),
            r@ == walk@.subrange(0, i as int),
        decreases walk@.len() - i,
    {
        r.push(walk[i]);
        assert(walk@.subrange(0, i + 1) =~= walk@.subrange(0, i as int).push(walk@[i as int]));
        i = i + 1;
    }
    r
}

/// Extracts every `registry_name.X.Y...` selection from Nix source text.
///
/// Returns the references in document order, each spanning its whole
/// selection expression, and whether the parser reported syntax errors
/// (extraction still covers what it recovered).
pub fn extract_refs(source: &str, file: &str, registry_name: &str) -> (r: (Vec<RegistryRef>, bool))
    requires
        utf8(source@).len() < u32::MAX,
    ensures
        r.1 == nix_parse(source@).1,
        r.0@.len() == references_in(source@, registry_name@).len(),
        forall|k: int|
            0 <= k < r.0@.len() ==> describes(
                #[trigger] r.0@[k],
                references_in(source@, registry_name@)[k],
                file@,
                utf8(source@),
                utf8(registry_name@),
            ),
{
    let (walk, has_errors) = parse_nix(source);
    let refs = refs_from_walk(walk.as_slice(), source, file, registry_name);
    (refs, has_errors)
}

/// The dotted paths of the `registry_name` selections in `source`, in
/// document order.
pub fn extract_paths_from_source(source: &str, registry_name: &str) -> (r: Vec<String>)
    requires
        utf8(source@).len() < u32::MAX,
    ensures
        r@.len() == references_in(source@, registry_name@).len(),
        forall|k: int|
            0 <= k < r@.len() ==> utf8(#[trigger] r@[k]@) == references_in(
                source@,
                registry_name@,
            )[k].0,
{
    let (refs, _) = extract_refs(source, "", registry_name);
    let mut paths: Vec<String> = Vec::new();
    let mut k: usize = 0;
    while k < refs.len()
        invariant
            k <= refs@.len(),
            paths@.len() == k,
            forall|t: int| 0 <= t < k ==> #[trigger] paths@[t]@ == refs@[t].path@,
        decreases refs@.len() - k,
    {
        paths.push(refs[k].path.clone());
        k = k + 1;
    }
    paths
}

} // verus!
