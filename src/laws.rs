use vstd::prelude::*;
use crate::child_groups::upserted;
use crate::dom::{appended, inserted_before, Dom, DomNodeData};
use crate::markup::{children_markup, markup};
use crate::seq_util::{first_index, lemma_first_index_result, lemma_without_contains, without};

verus! {

/// Operations that leave the live surface untouched compose: over any
/// sequence of operations on virtual nodes only, no node is materialised and
/// no text write is queued.
pub proof fn lemma_untouched_compose(a: &Dom, b: &Dom, c: &Dom)
    requires
        a.surface_untouched(b),
        b.surface_untouched(c),
    ensures
        a.surface_untouched(c),
{
}

/// Upserting `y` into a slot whose anchor is `x` leaves `y` among the
/// parent's children and `x` detached from it.
pub proof fn lemma_upsert_detaches_previous(
    c: Seq<DomNodeData>,
    x: DomNodeData,
    y: DomNodeData,
    next: Option<DomNodeData>,
)
    requires
        x != y,
    ensures
        upserted(c, Some(x), y, next).contains(y),
        !upserted(c, Some(x), y, next).contains(x),
{
    let kept = without(c, x);
    let d = without(kept, y);
    lemma_without_contains(c, x, x);
    lemma_without_contains(kept, y, x);
    let r = upserted(c, Some(x), y, next);
    match next {
        Some(n) => {
            lemma_first_index_result(d, n);
            if first_index(d, n) >= 0 {
                let k = first_index(d, n);
                assert(r[k] == y);
                if r.contains(x) {
                    let j = choose|j: int| 0 <= j < r.len() && r[j] == x;
                    if j < k {
                        assert(d[j] == x);
                    } else {
                        assert(d[j - 1] == x);
                    }
                }
            } else {
                assert(r[d.len() as int] == y);
                if r.contains(x) {
                    let j = choose|j: int| 0 <= j < r.len() && r[j] == x;
                    assert(d[j] == x);
                }
            }
        },
        None => {
            assert(r[d.len() as int] == y);
            if r.contains(x) {
                let j = choose|j: int| 0 <= j < r.len() && r[j] == x;
                assert(d[j] == x);
            }
        },
    }
}

/// A child inserted for a slot lands immediately before the anchor of the
/// next occupied slot, wherever that anchor stands in the parent now.
pub proof fn lemma_insert_lands_before_next_anchor(
    c: Seq<DomNodeData>,
    x: DomNodeData,
    n: DomNodeData,
)
    requires
        x != n,
        c.contains(n),
    ensures
        ({
            let r = inserted_before(c, x, Some(n));
            let k = first_index(without(c, x), n);
            0 <= k && k + 1 < r.len() && r[k] == x && r[k + 1] == n
        }),
{
    let d = without(c, x);
    lemma_without_contains(c, x, n);
    lemma_first_index_result(d, n);
}

/// Two groups appended one after the other are independent: both children
/// are attached, and detaching either one leaves the other attached.
pub proof fn lemma_closed_groups_independent(c: Seq<DomNodeData>, a: DomNodeData, b: DomNodeData)
    requires
        a != b,
    ensures
        appended(appended(c, a), b).contains(a),
        appended(appended(c, a), b).contains(b),
        without(appended(appended(c, a), b), a).contains(b),
        without(appended(appended(c, a), b), b).contains(a),
{
    let l1 = appended(c, a);
    let l2 = appended(l1, b);
    assert(l1[l1.len() - 1] == a);
    assert(l1.contains(a));
    lemma_without_contains(l1, b, a);
    let d = without(l1, b);
    let j = choose|j: int| 0 <= j < d.len() && d[j] == a;
    assert(l2[j] == a);
    assert(l2[l2.len() - 1] == b);
    lemma_without_contains(l2, a, b);
    lemma_without_contains(l2, b, a);
}

/// Two groups appended one after the other, with no new group between,
/// leave the parent's children ending with the first child and then the
/// second.
pub proof fn lemma_two_appends_in_order(c: Seq<DomNodeData>, a: DomNodeData, b: DomNodeData)
    requires
        a != b,
    ensures
        ({
            let l = appended(appended(c, a), b);
            l.len() >= 2 && l[l.len() - 2] == a && l[l.len() - 1] == b
        }),
{
    let l1 = appended(c, a);
    assert(l1.drop_last() == without(c, a));
    assert(without(l1, b) == without(l1.drop_last(), b).push(a));
}

/// A node made after `h` is never the same node as `h`.
pub proof fn lemma_fresh_handle_not_same(dom: &Dom, h: DomNodeData, fresh: DomNodeData)
    requires
        dom.valid(h),
        fresh.spec_id() == dom.len(),
    ensures
        h != fresh,
{
}

/// Hydration that succeeds keeps the markup: the hydrated node's markup is,
/// byte for byte, its markup before and the markup of the node it took over.
pub proof fn lemma_hydration_keeps_markup(
    before: Dom,
    after: Dom,
    h: DomNodeData,
    existing: DomNodeData,
)
    requires
        before.same_contents(&after),
        markup(before, existing, before.len()) == markup(before, h, before.len()),
    ensures
        markup(after, h, after.len()) == markup(before, h, before.len()),
        markup(after, existing, after.len()) == markup(before, h, before.len()),
{
    lemma_markup_same_contents(before, after, h, before.len());
    lemma_markup_same_contents(before, after, existing, before.len());
}

/// Markup depends on contents alone: materialising nodes, which keeps every
/// node's contents, leaves the markup byte for byte as it was.
pub proof fn lemma_markup_same_contents(a: Dom, b: Dom, h: DomNodeData, depth: nat)
    requires
        a.same_contents(&b),
    ensures
        markup(a, h, depth) == markup(b, h, depth),
    decreases depth, 0nat,
{
    if depth > 0 && 0 <= h.spec_id() < a.len() {
        lemma_children_markup_same_contents(
            a,
            b,
            crate::dom::view_children(a.node(h.spec_id())),
            (depth - 1) as nat,
        );
    }
}

proof fn lemma_children_markup_same_contents(a: Dom, b: Dom, kids: Seq<DomNodeData>, depth: nat)
    requires
        a.same_contents(&b),
    ensures
        children_markup(a, kids, depth) == children_markup(b, kids, depth),
    decreases depth, kids.len() + 1,
{
    if kids.len() > 0 {
        lemma_children_markup_same_contents(a, b, kids.drop_last(), depth);
        lemma_markup_same_contents(a, b, kids.last(), depth);
    }
}

} // verus!
