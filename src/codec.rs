//! The editable text form of a record: blocks of `(-------KEY-------)` and a value.
use vstd::prelude::*;
use crate::field::{Field, FIELD_COUNT, field_index, field_at, field_name, field_named};
use crate::record::Record;
use crate::text::{trim, lines, chars_of, trim_bounds, lemma_trim_ws_prefix, lemma_lines_nonempty};

verus! {

/// Characters that open a header line.
pub open spec fn header_open() -> Seq<char> {
    seq!['(', '-', '-', '-', '-', '-', '-', '-']
}

/// Characters that close a header line.
pub open spec fn header_close() -> Seq<char> {
    seq!['-', '-', '-', '-', '-', '-', '-', ')']
}

/// The header line that introduces a field named `name`.
pub open spec fn header_line(name: Seq<char>) -> Seq<char> {
    header_open() + name + header_close()
}

/// Whether a line is a header: the opening, a non-empty name, the closing.
pub open spec fn is_header_line(l: Seq<char>) -> bool {
    l.len() > 16 && l.subrange(0, 8) == header_open() && l.subrange(l.len() - 8, l.len() as int)
        == header_close()
}

/// The name inside a header line.
pub open spec fn header_name(l: Seq<char>) -> Seq<char> {
    l.subrange(8, l.len() - 8)
}

/// One block of the text form.
pub open spec fn block(f: Field, v: Seq<char>) -> Seq<char> {
    header_line(field_name(f)) + seq!['\n'] + v + seq!['\n']
}

/// The value shown for a field: its value, or nothing.
pub open spec fn shown_value(rec: Seq<Option<Seq<char>>>, f: Field) -> Seq<char> {
    match rec[field_index(f) as int] {
        Some(v) => v,
        None => Seq::empty(),
    }
}

/// Whether a field occurs in a list.
pub open spec fn listed(order: Seq<Field>, f: Field) -> bool {
    exists|i: int| 0 <= i < order.len() && order[i] == f
}

/// The fields among the first `n` canonical ones that hold a value and are not listed.
pub open spec fn rest_fields(rec: Seq<Option<Seq<char>>>, order: Seq<Field>, n: nat) -> Seq<Field>
    decreases n,
{
    if n == 0 {
        Seq::empty()
    } else {
        let p = rest_fields(rec, order, (n - 1) as nat);
        let f = field_at((n - 1) as nat);
        if rec[n - 1] is Some && !listed(order, f) {
            p.push(f)
        } else {
            p
        }
    }
}

/// The fields written out: the listed ones, then the remaining ones that hold a value.
pub open spec fn shown_fields(rec: Seq<Option<Seq<char>>>, order: Seq<Field>) -> Seq<Field> {
    order + rest_fields(rec, order, FIELD_COUNT as nat)
}

/// The blocks of a sequence of fields.
pub open spec fn blocks(rec: Seq<Option<Seq<char>>>, fs: Seq<Field>) -> Seq<char>
    decreases fs.len(),
{
    if fs.len() == 0 {
        Seq::empty()
    } else {
        blocks(rec, fs.drop_last()) + block(fs.last(), shown_value(rec, fs.last()))
    }
}

/// The text form of a record under a display order.
pub open spec fn encoding(rec: Seq<Option<Seq<char>>>, order: Seq<Field>) -> Seq<char> {
    blocks(rec, shown_fields(rec, order))
}

/// The decoder's state between lines.
pub struct DecodeState {
    pub cur: Option<Field>,
    pub buf: Seq<char>,
    pub rec: Seq<Option<Seq<char>>>,
}

/// The record with the current field's value stored.
pub open spec fn flushed(s: DecodeState) -> Seq<Option<Seq<char>>> {
    match s.cur {
        Some(f) => s.rec.update(field_index(f) as int, Some(trim(s.buf))),
        None => s.rec,
    }
}

/// Reads one line: a header starts a field, any other line extends the value.
pub open spec fn step(s: DecodeState, l: Seq<char>) -> DecodeState {
    if is_header_line(l) {
        DecodeState { cur: field_named(header_name(l)), buf: Seq::empty(), rec: flushed(s) }
    } else {
        DecodeState { buf: s.buf + seq!['\n'] + l, ..s }
    }
}

/// The empty record.
pub open spec fn empty_record() -> Seq<Option<Seq<char>>> {
    Seq::new(FIELD_COUNT as nat, |i: int| None::<Seq<char>>)
}

/// The state before any line is read.
pub open spec fn initial_state() -> DecodeState {
    DecodeState { cur: None, buf: Seq::empty(), rec: empty_record() }
}

/// The state after reading a sequence of lines from state `s`.
pub open spec fn run_from(s: DecodeState, ls: Seq<Seq<char>>) -> DecodeState
    decreases ls.len(),
{
    if ls.len() == 0 {
        s
    } else {
        step(run_from(s, ls.drop_last()), ls.last())
    }
}

/// The state after reading a sequence of lines.
pub open spec fn run(ls: Seq<Seq<char>>) -> DecodeState {
    run_from(initial_state(), ls)
}

/// The record that a text decodes to.
pub open spec fn decoding(t: Seq<char>) -> Seq<Option<Seq<char>>> {
    flushed(run(lines(t)))
}

/// The names of the headers among `ls` that name no recognized field, in order.
pub open spec fn unrecognized(ls: Seq<Seq<char>>) -> Seq<Seq<char>>
    decreases ls.len(),
{
    if ls.len() == 0 {
        Seq::empty()
    } else {
        let p = unrecognized(ls.drop_last());
        let l = ls.last();
        if is_header_line(l) && field_named(header_name(l)) is None {
            p.push(header_name(l))
        } else {
            p
        }
    }
}

/// The text view of a list of strings.
pub open spec fn strings_view(v: Seq<String>) -> Seq<Seq<char>> {
    v.map_values(|s: String| s@)
}

/// Whether `t[a..b]` is a header line.
fn header_at(t: &Vec<char>, a: usize, b: usize) -> (r: bool)
    requires
        a <= b <= t@.len(),
    ensures
        r == is_header_line(t@.subrange(a as int, b as int)),
{
    let l = Ghost(t@.subrange(a as int, b as int));
    if b - a <= 16 {
        return false;
    }
    let mut i: usize = 0;
    while i < 8
        invariant
            0 <= i <= 8,
            a + 16 < b <= t@.len(),
            l@ == t@.subrange(a as int, b as int),
            forall|j: int| 0 <= j < i ==> l@[j] == header_open()[j] && l@[l@.len() - 8 + j] == header_close()[j],
        decreases 8 - i,
    {
        let want_open = if i == 0 { '(' } else { '-' };
        let want_close = if i == 7 { ')' } else { '-' };
        if t[a + i] != want_open || t[b - 8 + i] != want_close {
            assert(l@[i as int] != header_open()[i as int] || l@[l@.len() - 8 + i] != header_close()[i as int]);
            return false;
        }
        i = i + 1;
    }
    assert(l@.subrange(0, 8) =~= header_open());
    assert(l@.subrange(l@.len() - 8, l@.len() as int) =~= header_close());
    true
}

/// Stores the current field's value, `trim` of `'\n'` followed by `t[lo..hi]`.
fn flush_into(rec: &mut Record, text: &str, t: &Vec<char>, cur: Option<Field>, filled: bool, lo: usize, hi: usize, buf: Ghost<Seq<char>>)
    requires
        old(rec).wf(),
        t@ == text@,
        lo <= hi <= t@.len(),
        filled ==> buf@ == seq!['\n'] + t@.subrange(lo as int, hi as int),
        !filled ==> buf@.len() == 0,
    ensures
        final(rec).wf(),
        final(rec).view() == flushed(DecodeState { cur, buf: buf@, rec: old(rec).view() }),
{
    if let Some(f) = cur {
        let v = if filled {
            let (a, b) = trim_bounds(t, lo, hi);
            proof {
                lemma_trim_ws_prefix('\n', t@.subrange(lo as int, hi as int));
            }
            String::from_str(text.substring_char(a, b))
        } else {
            proof {
                assert(trim(buf@) =~= Seq::<char>::empty());
            }
            String::new()
        };
        rec.set(f, v);
    }
}

/// Decodes the text form into a record.
///
/// A header naming an unrecognized field drops that field and its lines;
/// the name is reported in the second component of the result.
pub fn format_to_hashmap(text: &str) -> (r: (Record, Vec<String>))
    ensures
        r.0.wf(),
        r.0.view() == decoding(text@),
        strings_view(r.1@) == unrecognized(lines(text@)),
{
    let t = chars_of(text);
    let n = t.len();
    let mut rec = Record::new();
    let mut unknown: Vec<String> = Vec::new();
    let mut cur: Option<Field> = None;
    let mut filled = false;
    let mut lo: usize = 0;
    let mut hi: usize = 0;
    let mut buf: Ghost<Seq<char>> = Ghost(Seq::empty());
    let mut ls: usize = 0;
    let mut i: usize = 0;
    proof {
        assert(t@.take(0) =~= Seq::<char>::empty());
        assert(rec.view() =~= empty_record());
        assert(strings_view(unknown@) =~= Seq::<Seq<char>>::empty());
    }
    while i < n
        invariant
            n == t@.len(),
            t@ == text@,
            ls <= i <= n,
            rec.wf(),
            lines(t@.take(i as int)) == lines(t@.take(ls as int)).drop_last().push(t@.subrange(ls as int, i as int)),
            run(lines(t@.take(ls as int)).drop_last()) == (DecodeState { cur, buf: buf@, rec: rec.view() }),
            strings_view(unknown@) == unrecognized(lines(t@.take(ls as int)).drop_last()),
            lo <= hi <= t@.len(),
            filled ==> buf@ == seq!['\n'] + t@.subrange(lo as int, hi as int) && hi < ls && t@[hi as int] == '\n' && hi + 1 == ls,
            !filled ==> buf@.len() == 0,
        decreases n - i,
    {
        proof {
            lemma_lines_nonempty(t@.take(i as int));
            assert(t@.take(i + 1).drop_last() =~= t@.take(i as int));
            assert(t@.take(i + 1).last() == t@[i as int]);
        }
        if t[i] == '\n' {
            let ghost prev = lines(t@.take(ls as int)).drop_last();
            let ghost l = t@.subrange(ls as int, i as int);
            proof {
                assert(lines(t@.take(i + 1)) == lines(t@.take(i as int)).push(Seq::empty()));
                assert(lines(t@.take(i + 1)).drop_last() =~= prev.push(l));
                assert(prev.push(l).drop_last() =~= prev);
            }
            if header_at(&t, ls, i) {
                flush_into(&mut rec, text, &t, cur, filled, lo, hi, buf);
                let name = &t.as_slice()[ls + 8..i - 8];
                proof {
                    assert(name@ =~= header_name(l));
                }
                cur = Field::from_name(name);
                let ghost before = unknown@;
                if cur.is_none() {
                    unknown.push(String::from_str(text.substring_char(ls + 8, i - 8)));
                    assert(strings_view(unknown@) =~= strings_view(before).push(header_name(l)));
                }
                filled = false;
                buf = Ghost(Seq::empty());
            } else {
                proof {
                    if filled {
                        assert(buf@ + seq!['\n'] + l =~= seq!['\n'] + t@.subrange(lo as int, i as int));
                    } else {
                        assert(buf@ + seq!['\n'] + l =~= seq!['\n'] + t@.subrange(ls as int, i as int));
                    }
                }
                if !filled {
                    lo = ls;
                }
                hi = i;
                filled = true;
                buf = Ghost(buf@ + seq!['\n'] + l);
            }
            ls = i + 1;
            proof {
                assert(t@.subrange(ls as int, i + 1) =~= Seq::<char>::empty());
                assert(lines(t@.take(ls as int)).drop_last() =~= prev.push(l));
            }
        } else {
            proof {
                let p = lines(t@.take(i as int));
                assert(lines(t@.take(i + 1)) == p.update(p.len() - 1, p.last().push(t@[i as int])));
                assert(t@.subrange(ls as int, i + 1) =~= t@.subrange(ls as int, i as int).push(t@[i as int]));
                assert(lines(t@.take(i + 1)) =~= lines(t@.take(ls as int)).drop_last().push(t@.subrange(ls as int, i + 1)));
            }
        }
        i = i + 1;
    }
    let ghost prev = lines(t@.take(ls as int)).drop_last();
    let ghost l = t@.subrange(ls as int, n as int);
    proof {
        assert(t@.take(n as int) =~= t@);
        assert(lines(t@) == prev.push(l));
        assert(prev.push(l).drop_last() =~= prev);
    }
    if header_at(&t, ls, n) {
        flush_into(&mut rec, text, &t, cur, filled, lo, hi, buf);
        let name = &t.as_slice()[ls + 8..n - 8];
        proof {
            assert(name@ =~= header_name(l));
        }
        cur = Field::from_name(name);
        let ghost before = unknown@;
        if cur.is_none() {
            unknown.push(String::from_str(text.substring_char(ls + 8, n - 8)));
            assert(strings_view(unknown@) =~= strings_view(before).push(header_name(l)));
        }
        filled = false;
        buf = Ghost(Seq::empty());
    } else {
        proof {
            if filled {
                assert(buf@ + seq!['\n'] + l =~= seq!['\n'] + t@.subrange(lo as int, n as int));
            } else {
                assert(buf@ + seq!['\n'] + l =~= seq!['\n'] + t@.subrange(ls as int, n as int));
            }
        }
        if !filled {
            lo = ls;
        }
        hi = n;
        filled = true;
        buf = Ghost(buf@ + seq!['\n'] + l);
    }
    flush_into(&mut rec, text, &t, cur, filled, lo, hi, buf);
    (rec, unknown)
}

/// Appends one block of the text form.
fn push_block(out: &mut String, f: Field, v: &str)
    ensures
        final(out)@ == old(out)@ + block(f, v@),
{
    proof {
        reveal_strlit("(-------");
        reveal_strlit("-------)\n");
        reveal_strlit("\n");
    }
    out.append("(-------");
    out.append(f.name());
    out.append("-------)\n");
    out.append(v);
    out.append("\n");
    assert(final(out)@ =~= old(out)@ + block(f, v@));
}

/// Whether a field occurs in a list.
fn contains_field(order: &[Field], f: Field) -> (r: bool)
    ensures
        r == listed(order@, f),
{
    let mut i: usize = 0;
    while i < order.len()
        invariant
            i <= order@.len(),
            forall|j: int| 0 <= j < i ==> order@[j] != f,
        decreases order@.len() - i,
    {
        if order[i] == f {
            return true;
        }
        i = i + 1;
    }
    false
}

/// Encodes a record: one block for each field of `order`, whether it holds a
/// value or not, then one for each remaining field that holds a value.
pub fn hashmap_to_format(rec: &Record, order: &[Field]) -> (r: String)
    requires
        rec.wf(),
    ensures
        r@ == encoding(rec.view(), order@),
{
    let ghost m = rec.view();
    let mut out = String::new();
    let mut i: usize = 0;
    while i < order.len()
        invariant
            rec.wf(),
            m == rec.view(),
            i <= order@.len(),
            out@ == blocks(m, order@.take(i as int)),
        decreases order@.len() - i,
    {
        let f = order[i];
        proof {
            assert(order@.take(i + 1).drop_last() =~= order@.take(i as int));
        }
        match rec.get(f) {
            Some(v) => push_block(&mut out, f, v.as_str()),
            None => {
                proof { reveal_strlit(""); }
                push_block(&mut out, f, "");
            },
        }
        i = i + 1;
    }
    assert(order@.take(order@.len() as int) =~= order@);
    let mut k: usize = 0;
    while k < FIELD_COUNT
        invariant
            rec.wf(),
            m == rec.view(),
            k <= FIELD_COUNT,
            out@ == blocks(m, order@ + rest_fields(m, order@, k as nat)),
        decreases FIELD_COUNT - k,
    {
        let f = Field::from_index(k);
        let ghost before = order@ + rest_fields(m, order@, k as nat);
        if rec.get(f).is_some() && !contains_field(order, f) {
            let v = rec.get(f).unwrap();
            proof {
                assert((before.push(f)).drop_last() =~= before);
                assert(order@ + rest_fields(m, order@, (k + 1) as nat) =~= before.push(f));
            }
            push_block(&mut out, f, v.as_str());
        }
        k = k + 1;
    }
    out
}

} // verus!
