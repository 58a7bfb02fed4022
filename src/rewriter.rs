//! Offset-exact rewriting of source text.
//!
//! Each accepted fix replaces the byte span of one select expression with
//! `<registry>.<new path>`. Replacements are applied from the rightmost span
//! to the leftmost, so that an edit never moves the offsets of the spans
//! still waiting to its left.
use crate::scanner::RegistryRef;
use crate::text::{lemma_utf8_concat, utf8};
use vstd::prelude::*;
use vstd::string::*;
use vstd::utf8::*;

verus! {

broadcast use vstd::seq_lib::group_to_multiset_ensures;

/// A single text replacement: the byte span `[start, end)` becomes
/// `new_text`; `position` is the change's place in its batch.
pub struct Replacement {
    pub start: usize,
    pub end: usize,
    pub new_text: String,
    pub position: usize,
}

/// An edit in the mathematical model: a byte span and the bytes put there.
pub type Edit = (int, int, Seq<u8>);

/// An edit together with its place in the batch.
pub type Placed = (Edit, int);

/// Why a batch of changes was rejected.
#[derive(Debug, Clone, Copy, PartialEq, Eq)]
pub enum RewriteError {
    /// The changes at these two positions of the batch overlap.
    Overlap(usize, usize),
}

impl Replacement {
    pub open spec fn edit(&self) -> Edit {
        (self.start as int, self.end as int, utf8(self.new_text@))
    }

    pub open spec fn placed(&self) -> Placed {
        (self.edit(), self.position as int)
    }
}

/// The edit that puts `<registry>.<path>` over the span of a reference.
pub open spec fn edit_for(registry_name: Seq<char>, change: (RegistryRef, String)) -> Edit {
    (
        change.0.start_offset as int,
        change.0.end_offset as int,
        utf8(registry_name + seq!['.'] + change.1@),
    )
}

/// The edits of a batch of changes, in the batch's order.
pub open spec fn edits_for(registry_name: Seq<char>, changes: Seq<(RegistryRef, String)>) -> Seq<
    Edit,
> {
    changes.map_values(|c: (RegistryRef, String)| edit_for(registry_name, c))
}

/// The edits of a batch, each with its place in the batch.
pub open spec fn placed_edits(registry_name: Seq<char>, changes: Seq<(RegistryRef, String)>) -> Seq<
    Placed,
> {
    changes.map(|i: int, c: (RegistryRef, String)| (edit_for(registry_name, c), i))
}

/// `t[0:s] + ins + t[e:]`.
pub open spec fn splice(t: Seq<u8>, s: int, e: int, ins: Seq<u8>) -> Seq<u8> {
    t.subrange(0, s) + ins + t.subrange(e, t.len() as int)
}

/// A span that lies inside the text and cuts no character in two.
pub open spec fn span_fits(t: Seq<u8>, s: int, e: int) -> bool {
    &&& 0 <= s <= e <= t.len()
    &&& is_char_boundary(t, s)
    &&& is_char_boundary(t, e)
}

/// One edit applied to the current text; a span that does not fit is skipped.
pub open spec fn apply_edit(t: Seq<u8>, ed: Edit) -> Seq<u8> {
    if span_fits(t, ed.0, ed.1) {
        splice(t, ed.0, ed.1, ed.2)
    } else {
        t
    }
}

/// The edits applied one after another, first to last.
pub open spec fn apply_in_order(t: Seq<u8>, eds: Seq<Edit>) -> Seq<u8>
    decreases eds.len(),
{
    if eds.len() == 0 {
        t
    } else {
        apply_in_order(apply_edit(t, eds[0]), eds.drop_first())
    }
}

/// `a` is applied before `b`: it starts further right; at the same start,
/// it ends further right; for the same span, it comes later in the batch.
pub open spec fn goes_before(a: Placed, b: Placed) -> bool {
    a.0.0 > b.0.0 || (a.0.0 == b.0.0 && (a.0.1 > b.0.1 || (a.0.1 == b.0.1 && a.1 > b.1)))
}

/// Each edit is applied before every later one.
pub open spec fn in_order(o: Seq<Placed>) -> bool {
    forall|i: int, j: int| 0 <= i < j < o.len() ==> goes_before(o[i], o[j])
}

/// The edits, without their places.
pub open spec fn unplaced(o: Seq<Placed>) -> Seq<Edit> {
    o.map_values(|p: Placed| p.0)
}

/// `r` is `t` with the edits applied in the order of `goes_before`.
pub open spec fn rewrites_to(t: Seq<u8>, placed: Seq<Placed>, r: Seq<u8>) -> bool {
    exists|order: Seq<Placed>|
        in_order(order) && order.to_multiset() == placed.to_multiset() && r == apply_in_order(
            t,
            unplaced(order),
        )
}

/// Two spans share some byte.
pub open spec fn overlap(a: Edit, b: Edit) -> bool {
    a.0 < b.1 && b.0 < a.1
}

/// No two edits overlap.
pub open spec fn disjoint(eds: Seq<Edit>) -> bool {
    forall|i: int, j: int|
        0 <= i < eds.len() && 0 <= j < eds.len() && i != j ==> !overlap(eds[i], eds[j])
}

/// Applies one replacement to `text` when its span fits, and leaves it as is otherwise.
fn splice_into(text: String, rep: &Replacement) -> (r: String)
    ensures
        utf8(r@) == apply_edit(utf8(text@), rep.edit()),
{
    let len = text.as_str().as_bytes().len();
    let fits_start = text.as_str().is_char_boundary(rep.start);
    let fits_end = text.as_str().is_char_boundary(rep.end);
    if rep.start <= rep.end && rep.end <= len && fits_start && fits_end {
        let (head, _) = text.as_str().split_at(rep.start);
        let (_, tail) = text.as_str().split_at(rep.end);
        let mut out = String::from_str(head);
        out.append(rep.new_text.as_str());
        out.append(tail);
        proof {
            let t = utf8(text@);
            assert(head.spec_bytes() == utf8(head@));
            assert(tail.spec_bytes() == utf8(tail@));
            assert(utf8(head@) == t.subrange(0, rep.start as int));
            assert(utf8(tail@) == t.subrange(rep.end as int, t.len() as int));
            assert(out@ == head@ + rep.new_text@ + tail@);
            lemma_utf8_concat(head@, rep.new_text@);
            lemma_utf8_concat(head@ + rep.new_text@, tail@);
        }
        out
    } else {
        text
    }
}

fn goes_before_exec(a: &Replacement, b: &Replacement) -> (r: bool)
    ensures
        r == goes_before(a.placed(), b.placed()),
{
    a.start > b.start || (a.start == b.start && (a.end > b.end || (a.end == b.end && a.position
        > b.position)))
}

/// Inserts `rep` at its place in the application order.
fn insert_in_order(sorted: &mut Vec<Replacement>, rep: Replacement)
    requires
        in_order(old(sorted)@.map_values(|r: Replacement| r.placed())),
        forall|k: int| 0 <= k < old(sorted)@.len() ==> #[trigger] old(sorted)@[k].position < rep.position,
    ensures
        in_order(final(sorted)@.map_values(|r: Replacement| r.placed())),
        final(sorted)@.map_values(|r: Replacement| r.placed()).to_multiset() == old(
            sorted,
        )@.map_values(|r: Replacement| r.placed()).to_multiset().insert(rep.placed()),
        forall|k: int| 0 <= k < final(sorted)@.len() ==> #[trigger] final(sorted)@[k].position <= rep.position,
{
    let ghost before = sorted@.map_values(|r: Replacement| r.placed());
    let ghost old_sorted = sorted@;
    let mut pos: usize = 0;
    while pos < sorted.len() && goes_before_exec(&sorted[pos], &rep)
        invariant
            pos <= sorted@.len(),
            sorted@ == old_sorted,
            sorted@.map_values(|r: Replacement| r.placed()) == before,
            forall|k: int| 0 <= k < pos ==> goes_before(#[trigger] before[k], rep.placed()),
        decreases sorted@.len() - pos,
    {
        pos = pos + 1;
    }
    let ghost e = rep.placed();
    sorted.insert(pos, rep);
    proof {
        let after = sorted@.map_values(|r: Replacement| r.placed());
        assert(after =~= before.insert(pos as int, e));
        assert(after.remove(pos as int) =~= before);
        assert(after.to_multiset().remove(e) == before.to_multiset());
        assert(after.to_multiset().count(e) > 0);
        assert(after.to_multiset() =~= before.to_multiset().insert(e));
        if pos < before.len() {
            assert(before[pos as int].1 < e.1);
            assert(goes_before(e, before[pos as int]));
        }
        assert forall|i: int, j: int| 0 <= i < j < after.len() implies goes_before(
            after[i],
            after[j],
        ) by {
            if j < pos {
            } else if i < pos && j == pos {
            } else if i < pos {
                assert(after[j] == before[j - 1]);
            } else if i == pos {
                assert(after[j] == before[j - 1]);
                if j - 1 > pos {
                    assert(goes_before(before[pos as int], before[j - 1]));
                }
            } else {
                assert(after[j] == before[j - 1]);
                assert(after[i] == before[i - 1]);
            }
        }
        assert forall|k: int| 0 <= k < sorted@.len() implies #[trigger] sorted@[k].position
            <= e.1 by {
            if k < pos {
                assert(sorted@[k] == old_sorted[k]);
            } else if k > pos {
                assert(sorted@[k] == old_sorted[k - 1]);
            }
        }
    }
}

/// Applies path replacements to source content, returning the modified string.
///
/// Each `(reference, new_path)` pair replaces the reference's byte span with
/// `<registry_name>.<new_path>`. No two spans may overlap. The replacements
/// are applied by start offset, largest first; at one start offset, the
/// longer span first; for the same span, the later-listed change first, so
/// that insertions at one point keep their listed order. A replacement whose
/// span does not fit the text at its turn (out of range, or cutting a
/// character) is skipped.
pub fn apply_replacements(content: &str, registry_name: &str, changes: &[(RegistryRef, String)]) -> (r:
    String)
    requires
        disjoint(edits_for(registry_name@, changes@)),
    ensures
        rewrites_to(utf8(content@), placed_edits(registry_name@, changes@), utf8(r@)),
{
    let ghost eds = placed_edits(registry_name@, changes@);
    let mut sorted: Vec<Replacement> = Vec::new();
    let mut i: usize = 0;
    while i < changes.len()
        invariant
            i <= changes@.len(),
            eds == placed_edits(registry_name@, changes@),
            in_order(sorted@.map_values(|r: Replacement| r.placed())),
            forall|k: int| 0 <= k < sorted@.len() ==> #[trigger] sorted@[k].position < i,
            sorted@.map_values(|r: Replacement| r.placed()).to_multiset() == eds.subrange(
                0,
                i as int,
            ).to_multiset(),
        decreases changes@.len() - i,
    {
        proof {
            reveal_strlit(".");
        }
        assert(".".view() =~= seq!['.']);
        let mut new_text = String::from_str(registry_name);
        new_text.append(".");
        new_text.append(changes[i].1.as_str());
        let rep = Replacement {
            start: changes[i].0.start_offset,
            end: changes[i].0.end_offset,
            new_text,
            position: i,
        };
        assert(rep.placed() == eds[i as int]);
        insert_in_order(&mut sorted, rep);
        assert(eds.subrange(0, i + 1) =~= eds.subrange(0, i as int).push(eds[i as int]));
        i = i + 1;
    }
    assert(eds.subrange(0, changes@.len() as int) =~= eds);
    let ghost placed_order = sorted@.map_values(|r: Replacement| r.placed());
    let ghost order = sorted@.map_values(|r: Replacement| r.edit());
    assert(order =~= unplaced(placed_order));
    let mut result = String::from_str(content);
    let mut k: usize = 0;
    assert(order.subrange(0, order.len() as int) =~= order);
    while k < sorted.len()
        invariant
            k <= sorted@.len(),
            order == sorted@.map_values(|r: Replacement| r.edit()),
            apply_in_order(utf8(content@), order) == apply_in_order(
                utf8(result@),
                order.subrange(k as int, order.len() as int),
            ),
        decreases sorted@.len() - k,
    {
        let ghost rest = order.subrange(k as int, order.len() as int);
        assert(rest.drop_first() =~= order.subrange(k + 1, order.len() as int));
        result = splice_into(result, &sorted[k]);
        k = k + 1;
    }
    assert(order.subrange(k as int, order.len() as int) =~= Seq::<Edit>::empty());
    result
}

/// Like [`apply_replacements`], but refuses a batch in which two changes
/// overlap instead of requiring that none do.
pub fn try_apply_replacements(
    content: &str,
    registry_name: &str,
    changes: &[(RegistryRef, String)],
) -> (r: Result<String, RewriteError>)
    ensures
        r is Ok <==> disjoint(edits_for(registry_name@, changes@)),
        r matches Ok(s) ==> rewrites_to(
            utf8(content@),
            placed_edits(registry_name@, changes@),
            utf8(s@),
        ),
        r matches Err(RewriteError::Overlap(i, j)) ==> i < j < changes@.len() && {
            let (a, b) = (changes@[i as int].0, changes@[j as int].0);
            a.start_offset < b.end_offset && b.start_offset < a.end_offset
        },
{
    let ghost eds = edits_for(registry_name@, changes@);
    let mut i: usize = 0;
    while i < changes.len()
        invariant
            i <= changes@.len(),
            eds == edits_for(registry_name@, changes@),
            forall|a: int, b: int|
                0 <= a < i && 0 <= b < changes@.len() && a != b ==> !overlap(eds[a], eds[b]),
        decreases changes@.len() - i,
    {
        let mut j: usize = i + 1;
        while j < changes.len()
            invariant
                i < j <= changes@.len(),
                eds == edits_for(registry_name@, changes@),
                forall|a: int, b: int|
                    0 <= a < i && 0 <= b < changes@.len() && a != b ==> !overlap(eds[a], eds[b]),
                forall|b: int| i < b < j ==> !overlap(eds[i as int], eds[b]),
            decreases changes@.len() - j,
        {
            let a = &changes[i].0;
            let b = &changes[j].0;
            if a.start_offset < b.end_offset && b.start_offset < a.end_offset {
                assert(overlap(eds[i as int], eds[j as int]));
                return Err(RewriteError::Overlap(i, j));
            }
            j = j + 1;
        }
        assert forall|b: int| 0 <= b < changes@.len() && b != i implies !overlap(
            eds[i as int],
            eds[b],
        ) by {
            if b < i {
                assert(!overlap(eds[b], eds[i as int]));
            }
        }
        i = i + 1;
    }
    Ok(apply_replacements(content, registry_name, changes))
}

/// Rewriting a single change whose span fits the text gives exactly
/// `text[0:start] + "<registry>.<new path>" + text[end:]`.
pub proof fn lemma_single_change_exact(
    text: Seq<char>,
    registry_name: Seq<char>,
    change: (RegistryRef, String),
    result: Seq<char>,
)
    requires
        span_fits(utf8(text), change.0.start_offset as int, change.0.end_offset as int),
        rewrites_to(utf8(text), placed_edits(registry_name, seq![change]), utf8(result)),
    ensures
        utf8(result) == splice(
            utf8(text),
            change.0.start_offset as int,
            change.0.end_offset as int,
            utf8(registry_name + seq!['.'] + change.1@),
        ),
{
    let eds = placed_edits(registry_name, seq![change]);
    let order = choose|order: Seq<Placed>|
        in_order(order) && order.to_multiset() == eds.to_multiset() && utf8(result)
            == apply_in_order(utf8(text), unplaced(order));
    let e = edit_for(registry_name, change);
    assert(eds =~= seq![(e, 0int)]);
    eds.to_multiset_ensures();
    order.to_multiset_ensures();
    assert(eds.to_multiset().count((e, 0int)) > 0);
    assert(order.len() == 1);
    assert(order.contains((e, 0int)));
    assert(order =~= seq![(e, 0int)]);
    let u = unplaced(order);
    assert(u =~= seq![e]);
    assert(u.drop_first() =~= Seq::<Edit>::empty());
    assert(apply_in_order(utf8(text), u) == apply_in_order(
        apply_edit(utf8(text), e),
        u.drop_first(),
    ));
    assert(apply_in_order(apply_edit(utf8(text), e), Seq::<Edit>::empty()) == apply_edit(
        utf8(text),
        e,
    ));
}

/// Mapping both sides keeps two sequences permutations of each other.
proof fn lemma_map_keeps_permutation<A, B>(a: Seq<A>, b: Seq<A>, f: spec_fn(A) -> B)
    requires
        a.to_multiset() == b.to_multiset(),
    ensures
        a.map_values(f).to_multiset() == b.map_values(f).to_multiset(),
    decreases a.len(),
{
    a.to_multiset_ensures();
    b.to_multiset_ensures();
    a.map_values(f).to_multiset_ensures();
    b.map_values(f).to_multiset_ensures();
    if a.len() == 0 {
        assert(b.len() == 0);
        assert(a.map_values(f) =~= b.map_values(f));
    } else {
        let x = a[0];
        assert(b.to_multiset().count(x) > 0);
        let k = choose|k: int| 0 <= k < b.len() && b[k] == x;
        assert(a.remove(0).to_multiset() == a.to_multiset().remove(x));
        assert(b.remove(k).to_multiset() == b.to_multiset().remove(x));
        lemma_map_keeps_permutation(a.remove(0), b.remove(k), f);
        assert(a.remove(0).map_values(f) =~= a.map_values(f).remove(0));
        assert(b.remove(k).map_values(f) =~= b.map_values(f).remove(k));
        let ma = a.map_values(f).to_multiset();
        let mb = b.map_values(f).to_multiset();
        assert(ma.remove(f(x)) == mb.remove(f(x)));
        assert(a.map_values(f).contains(f(x)));
        assert(b.map_values(f)[k] == f(x));
        assert(ma.count(f(x)) > 0 && mb.count(f(x)) > 0);
        assert(ma =~= ma.remove(f(x)).insert(f(x)));
        assert(mb =~= mb.remove(f(x)).insert(f(x)));
    }
}

/// At different positions, different spans.
spec fn distinct_spans(o: Seq<Edit>) -> bool {
    forall|i: int, j: int|
        0 <= i < o.len() && 0 <= j < o.len() && i != j ==> (o[i].0, o[i].1) != (o[j].0, o[j].1)
}

/// Spans never increase along the sequence, by start and then by end.
spec fn spans_descending(o: Seq<Edit>) -> bool {
    forall|i: int, j: int|
        0 <= i < j < o.len() ==> o[j].0 < o[i].0 || (o[j].0 == o[i].0 && o[j].1 <= o[i].1)
}

proof fn lemma_permutation_keeps_distinct_spans(eds: Seq<Edit>, o: Seq<Edit>)
    requires
        distinct_spans(eds),
        o.to_multiset() == eds.to_multiset(),
    ensures
        distinct_spans(o),
{
    o.to_multiset_ensures();
    eds.to_multiset_ensures();
    assert forall|i: int, j: int|
        0 <= i < o.len() && 0 <= j < o.len() && i != j implies (o[i].0, o[i].1) != (
        o[j].0,
        o[j].1,
    ) by {
        if (o[i].0, o[i].1) == (o[j].0, o[j].1) {
            assert(o.to_multiset().count(o[i]) > 0);
            assert(o.to_multiset().count(o[j]) > 0);
            let a = choose|a: int| 0 <= a < eds.len() && eds[a] == o[i];
            if o[i] != o[j] {
                let b = choose|b: int| 0 <= b < eds.len() && eds[b] == o[j];
                assert(a != b);
            } else {
                let v = o[i];
                let ri = o.remove(i);
                ri.to_multiset_ensures();
                let k = if j < i {
                    j
                } else {
                    j - 1
                };
                assert(ri[k] == v);
                assert(ri.to_multiset().count(v) > 0);
                assert(eds.to_multiset().count(v) >= 2);
                let ra = eds.remove(a);
                ra.to_multiset_ensures();
                assert(ra.to_multiset().count(v) > 0);
                let b = choose|b: int| 0 <= b < ra.len() && ra[b] == v;
                let b2 = if b < a {
                    b
                } else {
                    b + 1
                };
                assert(eds[b2] == v);
                assert(a != b2);
            }
        }
    }
}

proof fn lemma_sorted_permutations_agree(o1: Seq<Edit>, o2: Seq<Edit>)
    requires
        spans_descending(o1),
        spans_descending(o2),
        distinct_spans(o1),
        o1.to_multiset() == o2.to_multiset(),
    ensures
        o1 == o2,
    decreases o1.len(),
{
    o1.to_multiset_ensures();
    o2.to_multiset_ensures();
    if o1.len() == 0 {
        assert(o2.len() == 0);
        assert(o1 =~= o2);
    } else {
        let x = o1[0];
        let y = o2[0];
        assert(o2.to_multiset().count(y) > 0);
        assert(o1.to_multiset().count(x) > 0);
        let k = choose|k: int| 0 <= k < o1.len() && o1[k] == y;
        let m = choose|m: int| 0 <= m < o2.len() && o2[m] == x;
        assert(k == 0);
        assert(o1.remove(0) =~= o1.drop_first());
        assert(o2.remove(0) =~= o2.drop_first());
        lemma_sorted_permutations_agree(o1.drop_first(), o2.drop_first());
        assert forall|i: int| 0 <= i < o1.len() implies o1[i] == o2[i] by {
            if i > 0 {
                assert(o1[i] == o1.drop_first()[i - 1]);
                assert(o2[i] == o2.drop_first()[i - 1]);
            }
        }
        assert(o1 =~= o2);
    }
}

proof fn lemma_order_of_batch(placed: Seq<Placed>, eds: Seq<Edit>, order: Seq<Placed>)
    requires
        unplaced(placed) == eds,
        distinct_spans(eds),
        in_order(order),
        order.to_multiset() == placed.to_multiset(),
    ensures
        spans_descending(unplaced(order)),
        distinct_spans(unplaced(order)),
        unplaced(order).to_multiset() == eds.to_multiset(),
{
    lemma_map_keeps_permutation(order, placed, |p: Placed| p.0);
    lemma_permutation_keeps_distinct_spans(eds, unplaced(order));
    let u = unplaced(order);
    assert forall|i: int, j: int| 0 <= i < j < u.len() implies u[j].0 < u[i].0 || (u[j].0
        == u[i].0 && u[j].1 <= u[i].1) by {
        assert(goes_before(order[i], order[j]));
    }
}

/// Non-empty changes that do not overlap give the same text whatever order
/// they are listed in.
pub proof fn lemma_order_independent(
    text: Seq<u8>,
    registry_name: Seq<char>,
    changes1: Seq<(RegistryRef, String)>,
    changes2: Seq<(RegistryRef, String)>,
    r1: Seq<u8>,
    r2: Seq<u8>,
)
    requires
        changes1.to_multiset() == changes2.to_multiset(),
        disjoint(edits_for(registry_name, changes1)),
        forall|i: int|
            0 <= i < changes1.len() ==> #[trigger] changes1[i].0.start_offset
                < changes1[i].0.end_offset,
        rewrites_to(text, placed_edits(registry_name, changes1), r1),
        rewrites_to(text, placed_edits(registry_name, changes2), r2),
    ensures
        r1 == r2,
{
    let eds1 = edits_for(registry_name, changes1);
    let eds2 = edits_for(registry_name, changes2);
    let p1 = placed_edits(registry_name, changes1);
    let p2 = placed_edits(registry_name, changes2);
    assert(unplaced(p1) =~= eds1);
    assert(unplaced(p2) =~= eds2);
    lemma_map_keeps_permutation(
        changes1,
        changes2,
        |c: (RegistryRef, String)| edit_for(registry_name, c),
    );
    assert(distinct_spans(eds1)) by {
        assert forall|i: int, j: int|
            0 <= i < eds1.len() && 0 <= j < eds1.len() && i != j implies (eds1[i].0, eds1[i].1)
            != (eds1[j].0, eds1[j].1) by {
            assert(!overlap(eds1[i], eds1[j]));
            assert(changes1[i].0.start_offset < changes1[i].0.end_offset);
        }
    }
    lemma_permutation_keeps_distinct_spans(eds1, eds2);
    let o1 = choose|order: Seq<Placed>|
        in_order(order) && order.to_multiset() == p1.to_multiset() && r1 == apply_in_order(
            text,
            unplaced(order),
        );
    let o2 = choose|order: Seq<Placed>|
        in_order(order) && order.to_multiset() == p2.to_multiset() && r2 == apply_in_order(
            text,
            unplaced(order),
        );
    lemma_order_of_batch(p1, eds1, o1);
    lemma_order_of_batch(p2, eds2, o2);
    lemma_sorted_permutations_agree(unplaced(o1), unplaced(o2));
}

/// The text made of the edits in application order `o` (rightmost first):
/// the text before the leftmost span, then each inserted text followed by
/// the untouched text up to the next span, then the text after the
/// rightmost span.
pub open spec fn stitched(t: Seq<u8>, o: Seq<Edit>) -> Seq<u8>
    decreases o.len(),
{
    if o.len() == 0 {
        t
    } else {
        stitched(t.subrange(0, o[0].0), o.drop_first()) + o[0].2 + t.subrange(
            o[0].1,
            t.len() as int,
        )
    }
}

/// Each span lies in the text left of the span applied before it.
spec fn chained(len: int, o: Seq<Edit>) -> bool {
    forall|i: int|
        0 <= i < o.len() ==> 0 <= #[trigger] o[i].0 <= o[i].1 <= (if i == 0 {
            len
        } else {
            o[i - 1].0
        })
}

/// Every span starts and ends on a character boundary of `t`.
spec fn on_boundaries(t: Seq<u8>, o: Seq<Edit>) -> bool {
    forall|i: int|
        0 <= i < o.len() ==> is_char_boundary(t, #[trigger] o[i].0) && is_char_boundary(t, o[i].1)
}

spec fn inserts_valid(o: Seq<Edit>) -> bool {
    forall|i: int| 0 <= i < o.len() ==> valid_utf8(#[trigger] o[i].2)
}

proof fn lemma_boundary_in_prefix(a: Seq<u8>, b: Seq<u8>, p: int)
    requires
        valid_utf8(a),
        valid_utf8(b),
        0 <= p <= a.len(),
    ensures
        valid_utf8(a + b),
        is_char_boundary(a + b, p) == is_char_boundary(a, p),
{
    valid_utf8_concat(a, b);
    is_char_boundary_start_end_of_seq(a);
    is_char_boundary_start_end_of_seq(b);
    is_char_boundary_start_end_of_seq(a + b);
    if p < a.len() {
        is_char_boundary_iff_not_is_continuation_byte(a, p);
        is_char_boundary_iff_not_is_continuation_byte(a + b, p);
        assert((a + b)[p] == a[p]);
    } else if b.len() > 0 {
        is_char_boundary_iff_not_is_continuation_byte(b, 0);
        is_char_boundary_iff_not_is_continuation_byte(a + b, p);
        assert((a + b)[p] == b[0]);
    } else {
        assert(a + b =~= a);
    }
}

/// What holds of the first edit's span and inserted text, and of the
/// edits after it, which lie left of its start.
proof fn lemma_chained_rest(len: int, o: Seq<Edit>)
    requires
        o.len() > 0,
        chained(len, o),
        inserts_valid(o),
    ensures
        0 <= o[0].0 <= o[0].1 <= len,
        valid_utf8(o[0].2),
        chained(o[0].0, o.drop_first()),
        inserts_valid(o.drop_first()),
{
    let rest = o.drop_first();
    assert(0 <= o[0].0 <= o[0].1 <= len);
    assert forall|i: int| 0 <= i < rest.len() implies 0 <= #[trigger] rest[i].0 <= rest[i].1 <= (
    if i == 0 {
        o[0].0
    } else {
        rest[i - 1].0
    }) by {
        assert(rest[i] == o[i + 1]);
        assert(0 <= o[i + 1].0 <= o[i + 1].1 <= o[i].0);
    }
    assert forall|i: int| 0 <= i < rest.len() implies valid_utf8(#[trigger] rest[i].2) by {
        assert(rest[i] == o[i + 1]);
        assert(valid_utf8(o[i + 1].2));
    }
}

proof fn lemma_apply_in_prefix(a: Seq<u8>, b: Seq<u8>, o: Seq<Edit>)
    requires
        valid_utf8(a),
        valid_utf8(b),
        chained(a.len() as int, o),
        inserts_valid(o),
    ensures
        valid_utf8(apply_in_order(a, o)),
        apply_in_order(a + b, o) == apply_in_order(a, o) + b,
    decreases o.len(),
{
    if o.len() > 0 {
        lemma_chained_rest(a.len() as int, o);
        let (s, e, x) = o[0];
        let rest = o.drop_first();
        lemma_boundary_in_prefix(a, b, s);
        lemma_boundary_in_prefix(a, b, e);
        if span_fits(a, s, e) {
            let head = a.subrange(0, s);
            let tail = a.subrange(e, a.len() as int);
            valid_utf8_split(a, s);
            valid_utf8_split(a, e);
            valid_utf8_concat(x, tail);
            valid_utf8_concat(head, x + tail);
            let a2 = head + (x + tail);
            assert(splice(a, s, e, x) =~= a2);
            assert(splice(a + b, s, e, x) =~= a2 + b);
            assert forall|i: int| 0 <= i < rest.len() implies 0 <= #[trigger] rest[i].0
                <= rest[i].1 <= (if i == 0 {
                a2.len() as int
            } else {
                rest[i - 1].0
            }) by {}
            lemma_apply_in_prefix(a2, b, rest);
        } else {
            assert forall|i: int| 0 <= i < rest.len() implies 0 <= #[trigger] rest[i].0
                <= rest[i].1 <= (if i == 0 {
                a.len() as int
            } else {
                rest[i - 1].0
            }) by {}
            lemma_apply_in_prefix(a, b, rest);
        }
    }
}

/// A boundary of `t` left of the boundary `s` is one of `t[0:s]`.
proof fn lemma_boundary_left_of(t: Seq<u8>, s: int, p: int)
    requires
        valid_utf8(t),
        0 <= p <= s <= t.len(),
        is_char_boundary(t, s),
        is_char_boundary(t, p),
    ensures
        is_char_boundary(t.subrange(0, s), p),
{
    let a = t.subrange(0, s);
    let after = t.subrange(s, t.len() as int);
    valid_utf8_split(t, s);
    assert(t =~= a + after);
    lemma_boundary_in_prefix(a, after, p);
}

/// Every span lies left of the first one's start.
proof fn lemma_chain_below_first(len: int, o: Seq<Edit>, i: int)
    requires
        chained(len, o),
        1 <= i < o.len(),
    ensures
        o[i].1 <= o[0].0,
    decreases i,
{
    assert(0 <= o[i].0 <= o[i].1 <= o[i - 1].0);
    if i > 1 {
        lemma_chain_below_first(len, o, i - 1);
        assert(0 <= o[i - 1].0 <= o[i - 1].1);
    }
}

/// The edits after the first lie on character boundaries of the text left
/// of the first one's start.
proof fn lemma_boundaries_in_prefix(t: Seq<u8>, o: Seq<Edit>)
    requires
        valid_utf8(t),
        o.len() > 0,
        0 <= o[0].0 <= t.len(),
        is_char_boundary(t, o[0].0),
        chained(t.len() as int, o),
        on_boundaries(t, o),
    ensures
        on_boundaries(t.subrange(0, o[0].0), o.drop_first()),
{
    let s = o[0].0;
    let rest = o.drop_first();
    assert forall|i: int| 0 <= i < rest.len() implies is_char_boundary(
        t.subrange(0, s),
        #[trigger] rest[i].0,
    ) && is_char_boundary(t.subrange(0, s), rest[i].1) by {
        assert(rest[i] == o[i + 1]);
        assert(0 <= o[i + 1].0 <= o[i + 1].1);
        lemma_chain_below_first(t.len() as int, o, i + 1);
        assert(is_char_boundary(t, o[i + 1].0) && is_char_boundary(t, o[i + 1].1));
        lemma_boundary_left_of(t, s, rest[i].0);
        lemma_boundary_left_of(t, s, rest[i].1);
    }
}

proof fn lemma_stitched(t: Seq<u8>, o: Seq<Edit>)
    requires
        valid_utf8(t),
        chained(t.len() as int, o),
        on_boundaries(t, o),
        inserts_valid(o),
    ensures
        apply_in_order(t, o) == stitched(t, o),
    decreases o.len(),
{
    if o.len() > 0 {
        lemma_chained_rest(t.len() as int, o);
        let (s, e, x) = o[0];
        let rest = o.drop_first();
        let a = t.subrange(0, s);
        let tail = t.subrange(e, t.len() as int);
        assert(is_char_boundary(t, o[0].0) && is_char_boundary(t, o[0].1));
        valid_utf8_split(t, s);
        valid_utf8_split(t, e);
        valid_utf8_concat(x, tail);
        assert(splice(t, s, e, x) =~= a + (x + tail));
        lemma_boundaries_in_prefix(t, o);
        assert(a.len() == s);
        lemma_apply_in_prefix(a, x + tail, rest);
        lemma_stitched(a, rest);
        assert(stitched(a, rest) + (x + tail) =~= stitched(a, rest) + x + tail);
    }
}

/// Text outside the spans is kept: applying changes that do not overlap
/// and fit the text puts each inserted text in place of its span and keeps
/// every gap between spans, and the text before and after them, unchanged.
pub proof fn lemma_gaps_kept(t: Seq<u8>, placed: Seq<Placed>, r: Seq<u8>)
    requires
        valid_utf8(t),
        disjoint(unplaced(placed)),
        forall|i: int|
            0 <= i < placed.len() ==> span_fits(t, #[trigger] placed[i].0.0, placed[i].0.1)
                && valid_utf8(placed[i].0.2),
        rewrites_to(t, placed, r),
    ensures
        exists|order: Seq<Placed>|
            in_order(order) && order.to_multiset() == placed.to_multiset() && r == stitched(
                t,
                unplaced(order),
            ),
{
    let order = choose|order: Seq<Placed>|
        in_order(order) && order.to_multiset() == placed.to_multiset() && r == apply_in_order(
            t,
            unplaced(order),
        );
    let u = unplaced(order);
    order.to_multiset_ensures();
    placed.to_multiset_ensures();
    assert forall|i: int| 0 <= i < u.len() implies placed.contains(#[trigger] order[i]) by {
        assert(order.to_multiset().count(order[i]) > 0);
    }
    assert forall|i: int| 0 <= i < u.len() implies 0 <= #[trigger] u[i].0 <= u[i].1 <= (if i
        == 0 {
        t.len() as int
    } else {
        u[i - 1].0
    }) by {
        let a = choose|a: int| 0 <= a < placed.len() && placed[a] == order[i];
        assert(u[i] == placed[a].0);
        if i > 0 {
            assert(placed.contains(order[i - 1]));
            let b = choose|b: int| 0 <= b < placed.len() && placed[b] == order[i - 1];
            assert(goes_before(order[i - 1], order[i]));
            assert(a != b);
            assert(!overlap(unplaced(placed)[a], unplaced(placed)[b]));
            assert(u[i - 1] == placed[b].0);
        }
    }
    assert forall|i: int| 0 <= i < u.len() implies is_char_boundary(t, #[trigger] u[i].0)
        && is_char_boundary(t, u[i].1) by {
        assert(placed.contains(order[i]));
        let a = choose|a: int| 0 <= a < placed.len() && placed[a] == order[i];
        assert(span_fits(t, placed[a].0.0, placed[a].0.1));
    }
    assert forall|i: int| 0 <= i < u.len() implies valid_utf8(#[trigger] u[i].2) by {
        assert(placed.contains(order[i]));
        let a = choose|a: int| 0 <= a < placed.len() && placed[a] == order[i];
        assert(span_fits(t, placed[a].0.0, placed[a].0.1));
        assert(valid_utf8(placed[a].0.2));
    }
    lemma_stitched(t, u);
}

} // verus!
