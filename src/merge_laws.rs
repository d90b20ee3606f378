//! Properties of merging a record into the tag tree.
use vstd::prelude::*;
use crate::field::{Field, FIELD_COUNT, field_index, field_at, is_header_field, lemma_field_named_inverse, lemma_field_index};
use crate::tags::{
    ChildView, NodeView, SimpleView, TagView, tag_key, tag_value, updated, handled, additions,
    new_simple, merged_children, has_simple, merged_parts, merging, entry_index, find_entry,
    is_entry, lacks_targets, missing_targets_before, needs_string, lacks_string, lemma_find_entry_bounds,
};

verus! {

/// A child that a merge of `rec` leaves as it is: not a recognized pair, or
/// one that holds the record's value for its field.
pub open spec fn settled(c: ChildView, rec: Seq<Option<Seq<char>>>) -> bool {
    match tag_key(c) {
        Some(f) => tag_value(rec, f) is Some && (match c {
            ChildView::Simple(s) => s.value == tag_value(rec, f),
            ChildView::Other(_) => false,
        }),
        None => true,
    }
}

pub open spec fn all_settled(cs: Seq<ChildView>, rec: Seq<Option<Seq<char>>>) -> bool {
    forall|j: int| 0 <= j < cs.len() ==> settled(#[trigger] cs[j], rec)
}

proof fn lemma_new_simple_key(f: Field, v: Seq<char>)
    requires
        !is_header_field(f),
    ensures
        tag_key(new_simple(f, v)) == Some(f),
{
    lemma_field_named_inverse(f);
}

proof fn lemma_updated_settled(cs: Seq<ChildView>, rec: Seq<Option<Seq<char>>>)
    ensures
        all_settled(updated(cs, rec), rec),
    decreases cs.len(),
{
    if cs.len() > 0 {
        lemma_updated_settled(cs.drop_last(), rec);
        let p = updated(cs.drop_last(), rec);
        assert forall|j: int| 0 <= j < updated(cs, rec).len() implies settled(#[trigger] updated(cs, rec)[j], rec) by {
            if j < p.len() {
                assert(updated(cs, rec)[j] == p[j]);
            }
        }
    }
}

proof fn lemma_additions_settled(cs: Seq<ChildView>, rec: Seq<Option<Seq<char>>>, n: nat)
    ensures
        all_settled(additions(cs, rec, n), rec),
    decreases n,
{
    if n > 1 {
        lemma_additions_settled(cs, rec, (n - 1) as nat);
        let p = additions(cs, rec, (n - 1) as nat);
        let f = field_at((n - 1) as nat);
        assert(!is_header_field(f));
        if let Some(v) = tag_value(rec, f) {
            lemma_new_simple_key(f, v);
        }
        assert forall|j: int| 0 <= j < additions(cs, rec, n).len() implies settled(#[trigger] additions(cs, rec, n)[j], rec) by {
            if j < p.len() {
                assert(additions(cs, rec, n)[j] == p[j]);
            }
        }
    }
}

/// Updating settled children changes nothing.
proof fn lemma_updated_fixed(cs: Seq<ChildView>, rec: Seq<Option<Seq<char>>>)
    requires
        all_settled(cs, rec),
    ensures
        updated(cs, rec) == cs,
    decreases cs.len(),
{
    if cs.len() > 0 {
        assert(all_settled(cs.drop_last(), rec)) by {
            assert forall|j: int| 0 <= j < cs.drop_last().len() implies settled(#[trigger] cs.drop_last()[j], rec) by {
                assert(cs.drop_last()[j] == cs[j]);
            }
        }
        lemma_updated_fixed(cs.drop_last(), rec);
        assert(settled(cs[cs.len() - 1], rec));
        if let ChildView::Simple(s) = cs.last() {
            assert(SimpleView { value: s.value, ..s } == s);
        }
        assert(cs.drop_last().push(cs.last()) =~= cs);
    }
}

proof fn lemma_updated_concat(a: Seq<ChildView>, b: Seq<ChildView>, rec: Seq<Option<Seq<char>>>)
    ensures
        updated(a + b, rec) == updated(a, rec) + updated(b, rec),
    decreases b.len(),
{
    if b.len() == 0 {
        assert(a + b =~= a);
        assert(updated(a, rec) + updated(b, rec) =~= updated(a, rec));
    } else {
        lemma_updated_concat(a, b.drop_last(), rec);
        assert((a + b).drop_last() =~= a + b.drop_last());
        assert((a + b).last() == b.last());
        let pa = updated(a, rec);
        let pb = updated(b.drop_last(), rec);
        assert((pa + pb).push(b.last()) =~= pa + pb.push(b.last()));
        let c = b.last();
        if let ChildView::Simple(s) = c {
            if let Some(f) = tag_key(c) {
                if let Some(v) = tag_value(rec, f) {
                    assert((pa + pb).push(ChildView::Simple(SimpleView { value: Some(v), ..s })) =~= pa + pb.push(ChildView::Simple(SimpleView { value: Some(v), ..s })));
                }
            }
        }
    }
}

/// A pair for a field that the record holds survives the update.
proof fn lemma_updated_keeps(cs: Seq<ChildView>, rec: Seq<Option<Seq<char>>>, f: Field)
    requires
        handled(cs, f),
        tag_value(rec, f) is Some,
    ensures
        handled(updated(cs, rec), f),
    decreases cs.len(),
{
    let p = updated(cs.drop_last(), rec);
    if tag_key(cs.last()) == Some(f) {
        assert(updated(cs, rec)[p.len() as int] == updated(cs, rec).last());
        assert(tag_key(updated(cs, rec)[p.len() as int]) == Some(f));
    } else {
        let j = choose|j: int| 0 <= j < cs.len() && tag_key(#[trigger] cs[j]) == Some(f);
        assert(j < cs.len() - 1);
        assert(cs.drop_last()[j] == cs[j]);
        lemma_updated_keeps(cs.drop_last(), rec, f);
        let k = choose|k: int| 0 <= k < p.len() && tag_key(#[trigger] p[k]) == Some(f);
        assert(updated(cs, rec)[k] == p[k]);
    }
}

/// A pair for a field that the record lacks is gone after the update.
proof fn lemma_updated_drops(cs: Seq<ChildView>, rec: Seq<Option<Seq<char>>>, f: Field)
    requires
        tag_value(rec, f) is None,
    ensures
        !handled(updated(cs, rec), f),
{
    lemma_updated_settled(cs, rec);
}

/// Every tag field the record holds has a pair among the additions, unless
/// the children already had one.
proof fn lemma_additions_cover(cs: Seq<ChildView>, rec: Seq<Option<Seq<char>>>, n: nat, f: Field)
    requires
        1 <= field_index(f) < n,
        tag_value(rec, f) is Some,
        !handled(cs, f),
    ensures
        handled(additions(cs, rec, n), f),
    decreases n,
{
    lemma_field_index(f);
    let p = additions(cs, rec, (n - 1) as nat);
    if field_index(f) == n - 1 {
        assert(!is_header_field(f));
        lemma_new_simple_key(f, tag_value(rec, f)->0);
        assert(additions(cs, rec, n)[p.len() as int] == new_simple(f, tag_value(rec, f)->0));
    } else {
        lemma_additions_cover(cs, rec, (n - 1) as nat, f);
        let k = choose|k: int| 0 <= k < p.len() && tag_key(#[trigger] p[k]) == Some(f);
        assert(additions(cs, rec, n)[k] == p[k]);
    }
}

/// No additions are needed when every tag field the record holds is handled.
proof fn lemma_additions_none(cs: Seq<ChildView>, rec: Seq<Option<Seq<char>>>, n: nat)
    requires
        n <= FIELD_COUNT,
        forall|f: Field| 1 <= field_index(f) < n && tag_value(rec, f) is Some ==> handled(cs, f),
    ensures
        additions(cs, rec, n) == Seq::<ChildView>::empty(),
    decreases n,
{
    if n > 1 {
        lemma_additions_none(cs, rec, (n - 1) as nat);
        lemma_field_index(field_at((n - 1) as nat));
    }
}

proof fn lemma_handled_concat(a: Seq<ChildView>, b: Seq<ChildView>, f: Field)
    ensures
        handled(a, f) || handled(b, f) ==> handled(a + b, f),
{
    if handled(a, f) {
        let j = choose|j: int| 0 <= j < a.len() && tag_key(#[trigger] a[j]) == Some(f);
        assert((a + b)[j] == a[j]);
    } else if handled(b, f) {
        let j = choose|j: int| 0 <= j < b.len() && tag_key(#[trigger] b[j]) == Some(f);
        assert((a + b)[a.len() + j] == b[j]);
    }
}

/// After a merge, every tag field that the record holds has a pair.
proof fn lemma_merged_covers(cs: Seq<ChildView>, rec: Seq<Option<Seq<char>>>, f: Field)
    requires
        !is_header_field(f),
        tag_value(rec, f) is Some,
    ensures
        handled(merged_children(cs, rec), f),
{
    lemma_field_index(f);
    assert(field_index(f) >= 1);
    if handled(cs, f) {
        lemma_updated_keeps(cs, rec, f);
    } else {
        lemma_additions_cover(cs, rec, FIELD_COUNT as nat, f);
    }
    lemma_handled_concat(updated(cs, rec), additions(cs, rec, FIELD_COUNT as nat), f);
}

proof fn lemma_handled_has_simple(cs: Seq<ChildView>, f: Field)
    requires
        handled(cs, f),
    ensures
        has_simple(cs),
{
    let j = choose|j: int| 0 <= j < cs.len() && tag_key(#[trigger] cs[j]) == Some(f);
    assert(cs[j] is Simple);
}

/// Merging twice the same record gives the children of one merge.
proof fn lemma_merged_children_idempotent(cs: Seq<ChildView>, rec: Seq<Option<Seq<char>>>)
    ensures
        merged_children(merged_children(cs, rec), rec) == merged_children(cs, rec),
        all_settled(merged_children(cs, rec), rec),
{
    let u = updated(cs, rec);
    let a = additions(cs, rec, FIELD_COUNT as nat);
    let m = u + a;
    lemma_updated_settled(cs, rec);
    lemma_additions_settled(cs, rec, FIELD_COUNT as nat);
    assert(all_settled(m, rec)) by {
        assert forall|j: int| 0 <= j < m.len() implies settled(#[trigger] m[j], rec) by {
            if j < u.len() {
                assert(m[j] == u[j]);
            } else {
                assert(m[j] == a[j - u.len()]);
            }
        }
    }
    lemma_updated_fixed(m, rec);
    assert forall|f: Field| 1 <= field_index(f) < FIELD_COUNT && tag_value(rec, f) is Some implies handled(m, f) by {
        lemma_field_index(f);
        assert(!is_header_field(f));
        lemma_merged_covers(cs, rec, f);
    }
    lemma_additions_none(m, rec, FIELD_COUNT as nat);
    assert(m + Seq::<ChildView>::empty() =~= m);
}

/// Deletion: after a merge, the metadata tag entry holds no pair for a tag
/// field that the record lacks; and when no `Simple` child is left, the entry
/// is gone and the other nodes stay in their order.
pub proof fn lemma_merge_deletes(ns: Seq<NodeView>, rec: Seq<Option<Seq<char>>>, f: Field)
    requires
        merging(ns, rec) is Ok,
        tag_value(rec, f) is None,
    ensures
        !handled(merged_parts(ns, rec).0.children, f),
        !has_simple(merged_parts(ns, rec).0.children) ==> merging(ns, rec) == Ok::<_, crate::tags::TreeError>(
            merged_parts(ns, rec).1),
        entry_index(ns) matches Some(m) ==> merged_parts(ns, rec).1 == ns.remove(m as int),
{
    lemma_find_entry_bounds(ns, 0);
    let cs = match entry_index(ns) {
        Some(m) => match ns[m as int] {
            NodeView::Tag(t) => t.children,
            NodeView::Other(_) => Seq::empty(),
        },
        None => Seq::empty(),
    };
    lemma_merged_children_idempotent(cs, rec);
    if let Some(m) = entry_index(ns) {
        if ns[m as int] is Other {
            assert(!handled(Seq::<ChildView>::empty(), f));
        }
    } else {
        assert(updated(Seq::<ChildView>::empty(), rec) + additions(Seq::empty(), rec, FIELD_COUNT as nat) =~= additions(Seq::empty(), rec, FIELD_COUNT as nat));
    }
}

/// Whether two nodes are elements read from the same source, with the same `Targets`.
pub open spec fn same_element(a: NodeView, b: NodeView) -> bool {
    match (a, b) {
        (NodeView::Tag(x), NodeView::Tag(y)) => x.origin == y.origin && x.targets == y.targets,
        _ => false,
    }
}

/// Move to front: after a merge that keeps the metadata tag entry, the entry
/// (the same element, with its `Targets`) stands first, followed by every
/// other node in its former order.
pub proof fn lemma_merge_front(ns: Seq<NodeView>, rec: Seq<Option<Seq<char>>>)
    requires
        merging(ns, rec) is Ok,
        entry_index(ns) is Some,
        has_simple(merged_parts(ns, rec).0.children),
    ensures
        ({
            let out = merging(ns, rec)->Ok_0;
            let m = entry_index(ns)->0 as int;
            &&& out.len() == ns.len()
            &&& is_entry(out[0])
            &&& same_element(out[0], ns[m])
            &&& out.subrange(1, out.len() as int) == ns.remove(m)
        }),
{
    lemma_find_entry_bounds(ns, 0);
    let out = merging(ns, rec)->Ok_0;
    let m = entry_index(ns)->0 as int;
    assert(ns[m] is Tag);
    assert(out.subrange(1, out.len() as int) =~= ns.remove(m));
}

/// Idempotence: merging the same record into the merged tree changes nothing,
/// unless the first merge removed the metadata tag entry while the tree held
/// another one.
pub proof fn lemma_merge_idempotent(ns: Seq<NodeView>, rec: Seq<Option<Seq<char>>>)
    requires
        merging(ns, rec) is Ok,
        rec.len() == FIELD_COUNT,
        has_simple(merged_parts(ns, rec).0.children) || entry_index(merged_parts(ns, rec).1) is None,
    ensures
        merging(merging(ns, rec)->Ok_0, rec) == merging(ns, rec),
{
    lemma_find_entry_bounds(ns, 0);
    let out = merging(ns, rec)->Ok_0;
    let (e, rest) = merged_parts(ns, rec);
    let cs = match entry_index(ns) {
        Some(m) => match ns[m as int] {
            NodeView::Tag(t) => t.children,
            NodeView::Other(_) => Seq::empty(),
        },
        None => Seq::empty(),
    };
    lemma_merged_children_idempotent(cs, rec);
    if entry_index(ns) is None {
        assert(updated(Seq::<ChildView>::empty(), rec) + additions(Seq::empty(), rec, FIELD_COUNT as nat) =~= additions(Seq::empty(), rec, FIELD_COUNT as nat));
    }
    assert(e.children == merged_children(cs, rec));
    assert(e.targets == Some(false)) by {
        if let Some(m) = entry_index(ns) {
            assert(is_entry(ns[m as int]));
        }
    }
    // Nothing in the rest lacks `Targets`.
    assert forall|j: int| 0 <= j < rest.len() implies !lacks_targets(#[trigger] rest[j]) by {
        if let Some(m) = entry_index(ns) {
            if ns[m as int] is Tag {
                if j < m {
                    assert(rest[j] == ns[j]);
                } else {
                    assert(rest[j] == ns[j + 1]);
                }
            } else {
                assert(rest[j] == ns[j]);
            }
        } else {
            assert(rest[j] == ns[j]);
        }
        if lacks_targets(rest[j]) {
            assert(missing_targets_before(ns, ns.len() as int));
        }
    }
    if has_simple(e.children) {
        assert(out == seq![NodeView::Tag(e)] + rest);
        assert(is_entry(out[0]));
        assert(find_entry(out, 0) == Some(0nat));
        assert(!missing_targets_before(out, out.len() as int)) by {
            assert forall|j: int| 0 <= j < out.len() implies !lacks_targets(#[trigger] out[j]) by {
                if j > 0 {
                    assert(out[j] == rest[j - 1]);
                }
            }
        }
        assert(!lacks_string(e.children, rec)) by {
            assert forall|j: int| 0 <= j < e.children.len() implies !needs_string(#[trigger] e.children[j], rec) by {
                assert(settled(e.children[j], rec));
            }
        }
        assert(out.remove(0) =~= rest);
        let e2 = TagView { children: merged_children(e.children, rec), ..e };
        assert(e2 == e);
    } else {
        assert(out == rest);
        assert(!missing_targets_before(out, out.len() as int));
        assert forall|f: Field| 1 <= field_index(f) < FIELD_COUNT implies tag_value(rec, f) is None by {
            lemma_field_index(f);
            if tag_value(rec, f) is Some {
                lemma_merged_covers(cs, rec, f);
                lemma_handled_has_simple(merged_children(cs, rec), f);
            }
        }
        assert forall|f: Field| 1 <= field_index(f) < FIELD_COUNT && tag_value(rec, f) is Some implies handled(Seq::<ChildView>::empty(), f) by {}
        lemma_additions_none(Seq::empty(), rec, FIELD_COUNT as nat);
        assert(!has_simple(Seq::<ChildView>::empty()));
    }
}

} // verus!
