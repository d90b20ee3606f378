//! Properties of the text form that hold for every record.
use vstd::prelude::*;
use crate::field::{Field, FIELD_COUNT, field_index, field_at, field_name, lemma_field_named_inverse, lemma_field_index};
use crate::text::{trim, lines, lemma_lines_concat, lemma_lines_single, lemma_lines_nonempty, lemma_trim_ws_prefix, lemma_trim_ws_suffix};
use crate::codec::{
    header_open, header_close, header_line, is_header_line, header_name, shown_value, listed,
    rest_fields, shown_fields, blocks, encoding, DecodeState, flushed, step, empty_record,
    initial_state, run_from, run, decoding,
};
use crate::session::without_empty;

verus! {

/// No line of a value could be taken for a header.
pub open spec fn plain_value(v: Seq<char>) -> bool {
    forall|j: int| 0 <= j < lines(v).len() ==> !is_header_line(#[trigger] lines(v)[j])
}

/// Every value of a record is plain.
pub open spec fn plain_record(rec: Seq<Option<Seq<char>>>) -> bool {
    forall|i: int| 0 <= i < rec.len() ==> (#[trigger] rec[i] matches Some(v) ==> plain_value(v))
}

/// Every value of a record is already trimmed.
pub open spec fn trimmed_record(rec: Seq<Option<Seq<char>>>) -> bool {
    forall|i: int| 0 <= i < rec.len() ==> (#[trigger] rec[i] matches Some(v) ==> trim(v) == v)
}

/// The record that decoding the blocks of `fs` produces.
pub open spec fn expected(rec: Seq<Option<Seq<char>>>, fs: Seq<Field>) -> Seq<Option<Seq<char>>>
    decreases fs.len(),
{
    if fs.len() == 0 {
        empty_record()
    } else {
        expected(rec, fs.drop_last()).update(
            field_index(fs.last()) as int,
            Some(trim(shown_value(rec, fs.last()))),
        )
    }
}

/// The lines joined, each after a newline.
pub open spec fn joined(ls: Seq<Seq<char>>) -> Seq<char>
    decreases ls.len(),
{
    if ls.len() == 0 {
        Seq::empty()
    } else {
        joined(ls.drop_last()) + seq!['\n'] + ls.last()
    }
}

proof fn lemma_run_from_append(s: DecodeState, a: Seq<Seq<char>>, b: Seq<Seq<char>>)
    ensures
        run_from(s, a + b) == run_from(run_from(s, a), b),
    decreases b.len(),
{
    if b.len() == 0 {
        assert(a + b =~= a);
    } else {
        lemma_run_from_append(s, a, b.drop_last());
        assert((a + b).drop_last() =~= a + b.drop_last());
    }
}

proof fn lemma_run_plain(s: DecodeState, ls: Seq<Seq<char>>)
    requires
        forall|j: int| 0 <= j < ls.len() ==> !is_header_line(#[trigger] ls[j]),
    ensures
        run_from(s, ls) == (DecodeState { buf: s.buf + joined(ls), ..s }),
    decreases ls.len(),
{
    if ls.len() == 0 {
        assert(s.buf + joined(ls) =~= s.buf);
    } else {
        lemma_run_plain(s, ls.drop_last());
        assert(ls.drop_last().len() == ls.len() - 1);
        assert(!is_header_line(ls[ls.len() - 1]));
        assert(s.buf + joined(ls.drop_last()) + seq!['\n'] + ls.last() =~= s.buf + joined(ls));
    }
}

proof fn lemma_joined_lines(v: Seq<char>)
    ensures
        joined(lines(v)) == seq!['\n'] + v,
    decreases v.len(),
{
    if v.len() == 0 {
        assert(lines(v) == seq![Seq::<char>::empty()]);
        assert(lines(v).drop_last() =~= Seq::<Seq<char>>::empty());
        assert(lines(v).last() == Seq::<char>::empty());
        assert(joined(Seq::<Seq<char>>::empty()) == Seq::<char>::empty());
        assert(joined(lines(v)) =~= seq!['\n'] + v);
    } else {
        let v2 = v.drop_last();
        lemma_joined_lines(v2);
        lemma_lines_nonempty(v2);
        let p = lines(v2);
        if v.last() == '\n' {
            assert(lines(v).drop_last() =~= p);
            assert(joined(lines(v)) =~= seq!['\n'] + v);
        } else {
            let q = lines(v);
            assert(q.drop_last() =~= p.drop_last());
            assert(q.last() == p.last().push(v.last()));
            assert(joined(q) =~= joined(p) + seq![v.last()]);
            assert(joined(lines(v)) =~= seq!['\n'] + v);
        }
    }
}

/// Facts about the header line of a field.
proof fn lemma_header(f: Field)
    ensures
        is_header_line(header_line(field_name(f))),
        header_name(header_line(field_name(f))) == field_name(f),
        forall|i: int| 0 <= i < header_line(field_name(f)).len() ==> #[trigger] header_line(field_name(f))[i] != '\n',
{
    let n = field_name(f);
    let h = header_line(n);
    assert(4 <= n.len() <= 11) by {
        match f {
            _ => {},
        }
    }
    assert(forall|i: int| 0 <= i < n.len() ==> n[i] != '\n') by {
        match f {
            _ => {},
        }
    }
    assert(h.subrange(0, 8) =~= header_open());
    assert(h.subrange(h.len() - 8, h.len() as int) =~= header_close());
    assert(header_name(h) =~= n);
    assert forall|i: int| 0 <= i < h.len() implies h[i] != '\n' by {
        if i < 8 {
            assert(h[i] == header_open()[i]);
        } else if i < 8 + n.len() {
            assert(h[i] == n[i - 8]);
        } else {
            assert(h[i] == header_close()[i - 8 - n.len()]);
        }
    }
}

/// The text without its final newline.
pub open spec fn body(rec: Seq<Option<Seq<char>>>, fs: Seq<Field>) -> Seq<char> {
    blocks(rec, fs).drop_last()
}

proof fn lemma_body(rec: Seq<Option<Seq<char>>>, fs: Seq<Field>)
    requires
        fs.len() > 0,
        rec.len() == FIELD_COUNT,
        plain_record(rec),
    ensures
        blocks(rec, fs) == body(rec, fs) + seq!['\n'],
        run(lines(body(rec, fs))) == (DecodeState {
            cur: Some(fs.last()),
            buf: seq!['\n'] + shown_value(rec, fs.last()),
            rec: expected(rec, fs.drop_last()),
        }),
    decreases fs.len(),
{
    let f = fs.last();
    let v = shown_value(rec, f);
    let h = header_line(field_name(f));
    let fs2 = fs.drop_last();
    lemma_header(f);
    lemma_field_named_inverse(f);
    lemma_field_index(f);
    assert(plain_value(v)) by {
        if rec[field_index(f) as int] is None {
            assert(lines(v) == seq![Seq::<char>::empty()]) by {
                assert(v =~= Seq::<char>::empty());
            }
        } else {
            assert(rec[field_index(f) as int] matches Some(w) ==> plain_value(w));
        }
    }
    lemma_lines_single(h);
    lemma_lines_concat(h, v);
    lemma_joined_lines(v);
    lemma_run_plain(step(initial_state(), h), lines(v));
    let hv = h + seq!['\n'] + v;
    assert(blocks(rec, fs) =~= blocks(rec, fs2) + hv + seq!['\n']);
    assert(body(rec, fs) =~= blocks(rec, fs2) + hv);
    if fs2.len() == 0 {
        assert(body(rec, fs) =~= hv);
        lemma_run_from_append(initial_state(), seq![h], lines(v));
        assert(seq![h].drop_last() =~= Seq::<Seq<char>>::empty());
        assert(run_from(initial_state(), seq![h].drop_last()) == initial_state());
        assert(run(seq![h]) == step(initial_state(), h));
        assert(flushed(initial_state()) == empty_record());
        assert(Seq::<char>::empty() + joined(lines(v)) =~= seq!['\n'] + v);
    } else {
        lemma_body(rec, fs2);
        let b2 = body(rec, fs2);
        assert(body(rec, fs) =~= b2 + seq!['\n'] + hv);
        lemma_lines_concat(b2, hv);
        let s2 = run(lines(b2));
        lemma_run_from_append(initial_state(), lines(b2), seq![h] + lines(v));
        lemma_run_from_append(s2, seq![h], lines(v));
        assert(seq![h].drop_last() =~= Seq::<Seq<char>>::empty());
        assert(run_from(s2, seq![h].drop_last()) == s2);
        assert(run_from(s2, seq![h]) == step(s2, h));
        lemma_trim_ws_prefix('\n', shown_value(rec, fs2.last()));
        assert(flushed(s2) == expected(rec, fs2));
        lemma_run_plain(step(s2, h), lines(v));
        assert(Seq::<char>::empty() + joined(lines(v)) =~= seq!['\n'] + v);
    }
}

/// Decoding the blocks of `fs` yields `expected`.
proof fn lemma_decode_blocks(rec: Seq<Option<Seq<char>>>, fs: Seq<Field>)
    requires
        rec.len() == FIELD_COUNT,
        plain_record(rec),
    ensures
        decoding(blocks(rec, fs)) == expected(rec, fs),
{
    if fs.len() == 0 {
        let e = Seq::<char>::empty();
        assert(blocks(rec, fs) == e);
        assert(lines(e) == seq![e]);
        assert(seq![e].drop_last() =~= Seq::<Seq<char>>::empty());
        assert(run_from(initial_state(), seq![e].drop_last()) == initial_state());
        assert(!is_header_line(e));
        assert(run(seq![e]) == step(initial_state(), e));
    } else {
        lemma_body(rec, fs);
        let b = body(rec, fs);
        let t = b + seq!['\n'];
        assert(t.drop_last() =~= b);
        assert(lines(t) == lines(b).push(Seq::empty()));
        assert(lines(t).drop_last() =~= lines(b));
        assert(lines(t).last() == Seq::<char>::empty());
        assert(!is_header_line(Seq::<char>::empty()));
        assert(run(lines(t)) == step(run(lines(b)), Seq::<char>::empty()));
        let v = shown_value(rec, fs.last());
        assert(seq!['\n'] + v + seq!['\n'] + Seq::<char>::empty() =~= (seq!['\n'] + v).push('\n'));
        lemma_trim_ws_suffix(seq!['\n'] + v, '\n');
        lemma_trim_ws_prefix('\n', v);
    }
}

/// Which slots `expected` fills, and with what.
proof fn lemma_expected_slots(rec: Seq<Option<Seq<char>>>, fs: Seq<Field>)
    ensures
        expected(rec, fs).len() == FIELD_COUNT,
        forall|i: int| 0 <= i < FIELD_COUNT ==> #[trigger] expected(rec, fs)[i] == (if (exists|j: int|
            0 <= j < fs.len() && field_index(fs[j]) == i) {
            Some(trim(shown_value(rec, field_at(i as nat))))
        } else {
            None
        }),
    decreases fs.len(),
{
    if fs.len() > 0 {
        let fs2 = fs.drop_last();
        lemma_expected_slots(rec, fs2);
        lemma_field_index(fs.last());
        assert forall|i: int| 0 <= i < FIELD_COUNT implies #[trigger] expected(rec, fs)[i] == (if (exists|j: int|
            0 <= j < fs.len() && field_index(fs[j]) == i) {
            Some(trim(shown_value(rec, field_at(i as nat))))
        } else {
            None
        }) by {
            if i == field_index(fs.last()) {
                assert(field_index(fs[fs.len() - 1]) == i);
            } else {
                if exists|j: int| 0 <= j < fs.len() && field_index(fs[j]) == i {
                    let j = choose|j: int| 0 <= j < fs.len() && field_index(fs[j]) == i;
                    assert(j < fs.len() - 1);
                    assert(fs2[j] == fs[j]);
                }
                if exists|j: int| 0 <= j < fs2.len() && field_index(fs2[j]) == i {
                    let j = choose|j: int| 0 <= j < fs2.len() && field_index(fs2[j]) == i;
                    assert(fs[j] == fs2[j]);
                }
            }
        }
    }
}

/// Which fields are written after the listed ones.
proof fn lemma_rest_fields(rec: Seq<Option<Seq<char>>>, order: Seq<Field>, n: nat, f: Field)
    requires
        n <= FIELD_COUNT,
    ensures
        listed(rest_fields(rec, order, n), f) <==> (field_index(f) < n && rec[field_index(f) as int] is Some
            && !listed(order, f)),
    decreases n,
{
    lemma_field_index(f);
    if n > 0 {
        let p = rest_fields(rec, order, (n - 1) as nat);
        lemma_rest_fields(rec, order, (n - 1) as nat, f);
        let g = field_at((n - 1) as nat);
        if rec[n - 1] is Some && !listed(order, g) {
            let q = p.push(g);
            if listed(p, f) {
                let j = choose|j: int| 0 <= j < p.len() && p[j] == f;
                assert(q[j] == f);
            }
            if listed(q, f) && !listed(p, f) {
                let j = choose|j: int| 0 <= j < q.len() && q[j] == f;
                assert(j == p.len());
            }
            if field_index(f) == n - 1 {
                assert(q[p.len() as int] == f);
            }
        }
    }
}

/// Whether a field's slot is filled when decoding the text form.
proof fn lemma_shown_slot(rec: Seq<Option<Seq<char>>>, order: Seq<Field>, i: int)
    requires
        0 <= i < FIELD_COUNT,
    ensures
        (exists|j: int| 0 <= j < shown_fields(rec, order).len() && field_index(#[trigger] shown_fields(rec, order)[j]) == i)
            <==> (listed(order, field_at(i as nat)) || rec[i] is Some),
{
    let f = field_at(i as nat);
    let s = shown_fields(rec, order);
    let r = rest_fields(rec, order, FIELD_COUNT as nat);
    lemma_rest_fields(rec, order, FIELD_COUNT as nat, f);
    assert(field_index(f) == i);
    if exists|j: int| 0 <= j < s.len() && field_index(s[j]) == i {
        let j = choose|j: int| 0 <= j < s.len() && field_index(s[j]) == i;
        lemma_field_index(s[j]);
        assert(s[j] == f);
        if j < order.len() {
            assert(order[j] == f);
        } else {
            assert(r[j - order.len()] == f);
        }
    }
    if listed(order, f) {
        let j = choose|j: int| 0 <= j < order.len() && order[j] == f;
        assert(s[j] == f);
    } else if rec[i] is Some {
        let j = choose|j: int| 0 <= j < r.len() && r[j] == f;
        assert(s[order.len() + j] == f);
    }
}

/// What decoding the text form of a record yields, field by field: a field
/// that was written holds its trimmed value (empty if it had none), any
/// other field is absent.
pub proof fn lemma_decode_encoding(rec: Seq<Option<Seq<char>>>, order: Seq<Field>)
    requires
        rec.len() == FIELD_COUNT,
        plain_record(rec),
    ensures
        decoding(encoding(rec, order)).len() == FIELD_COUNT,
        forall|i: int| 0 <= i < FIELD_COUNT ==> #[trigger] decoding(encoding(rec, order))[i] == (
            if listed(order, field_at(i as nat)) || rec[i] is Some {
                Some(trim(shown_value(rec, field_at(i as nat))))
            } else {
                None
            }),
{
    lemma_decode_blocks(rec, shown_fields(rec, order));
    lemma_expected_slots(rec, shown_fields(rec, order));
    assert forall|i: int| 0 <= i < FIELD_COUNT implies #[trigger] decoding(encoding(rec, order))[i] == (
        if listed(order, field_at(i as nat)) || rec[i] is Some {
            Some(trim(shown_value(rec, field_at(i as nat))))
        } else {
            None
        }) by {
        lemma_shown_slot(rec, order, i);
    }
}

/// Round trip: a record whose values are trimmed and hold no header line
/// comes back from its text form, once empty values are removed on both sides.
pub proof fn lemma_round_trip(rec: Seq<Option<Seq<char>>>, order: Seq<Field>)
    requires
        rec.len() == FIELD_COUNT,
        plain_record(rec),
        trimmed_record(rec),
    ensures
        without_empty(decoding(encoding(rec, order))) == without_empty(rec),
{
    lemma_decode_encoding(rec, order);
    let d = decoding(encoding(rec, order));
    assert forall|i: int| 0 <= i < FIELD_COUNT implies #[trigger] without_empty(d)[i] == without_empty(rec)[i] by {
        let f = field_at(i as nat);
        assert(field_index(f) == i);
        if rec[i] is None && listed(order, f) {
            assert(shown_value(rec, f) =~= Seq::<char>::empty());
            assert(trim(Seq::<char>::empty()) =~= Seq::<char>::empty());
        }
    }
    assert(without_empty(d) =~= without_empty(rec));
}

/// The display order does not change what the text form decodes to: two
/// orders that list the same fields give the same record.
pub proof fn lemma_order_independent(rec: Seq<Option<Seq<char>>>, o1: Seq<Field>, o2: Seq<Field>)
    requires
        rec.len() == FIELD_COUNT,
        plain_record(rec),
        forall|f: Field| listed(o1, f) <==> listed(o2, f),
    ensures
        decoding(encoding(rec, o1)) == decoding(encoding(rec, o2)),
{
    lemma_decode_encoding(rec, o1);
    lemma_decode_encoding(rec, o2);
    assert(decoding(encoding(rec, o1)) =~= decoding(encoding(rec, o2)));
}

} // verus!
