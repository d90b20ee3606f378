//! The decisions of one editing session: what to show, and what to apply.
use vstd::prelude::*;
use crate::field::{Field, FIELD_COUNT, field_index, field_name, display_order, display_fields};
use crate::record::Record;
use crate::codec::{hashmap_to_format, format_to_hashmap, encoding, decoding, strings_view, unrecognized};
use crate::text::lines;
use crate::tags::{TagTree, TreeError, extract, extraction, merge, merging};

verus! {

/// A record with every empty value removed.
pub open spec fn without_empty(rec: Seq<Option<Seq<char>>>) -> Seq<Option<Seq<char>>> {
    rec.map_values(|o: Option<Seq<char>>| if o matches Some(v) && v.len() == 0 { None } else { o })
}

/// The tag fields of a record.
pub open spec fn tag_part(rec: Seq<Option<Seq<char>>>) -> Seq<Option<Seq<char>>> {
    Seq::new(rec.len(), |i: int| if i == 0 { None } else { rec[i] })
}

/// `a` followed by `=` and `b`.
pub open spec fn assignment(a: Seq<char>, b: Seq<char>) -> Seq<char> {
    a + seq!['='] + b
}

/// The arguments that edit the container header: delete the title when the
/// record has none, set it otherwise.
pub open spec fn header_args(rec: Seq<Option<Seq<char>>>) -> Seq<Seq<char>> {
    match rec[field_index(Field::Title) as int] {
        Some(v) => seq![seq!['-', 's'], assignment(field_name(Field::Title), v)],
        None => seq![seq!['-', 'd'], field_name(Field::Title)],
    }
}

/// Removes every empty value: an emptied field is a deleted field.
pub fn remove_empty(rec: &mut Record)
    requires
        old(rec).wf(),
    ensures
        final(rec).wf(),
        final(rec).view() == without_empty(old(rec).view()),
{
    let ghost start = rec.view();
    proof {
        rec.lemma_wf_len();
    }
    let mut i: usize = 0;
    while i < FIELD_COUNT
        invariant
            i <= FIELD_COUNT,
            rec.wf(),
            start.len() == FIELD_COUNT,
            rec.view().len() == FIELD_COUNT,
            forall|j: int| 0 <= j < i ==> #[trigger] rec.view()[j] == without_empty(start)[j],
            forall|j: int| i <= j < FIELD_COUNT ==> #[trigger] rec.view()[j] == start[j],
        decreases FIELD_COUNT - i,
    {
        let f = Field::from_index(i);
        let empty = match rec.get(f) {
            Some(v) => v.unicode_len() == 0,
            None => false,
        };
        if empty {
            rec.remove(f);
        }
        i = i + 1;
    }
    assert(rec.view() =~= without_empty(start));
}

/// The tag fields of a record, without its header fields.
pub fn tag_fields(rec: &Record) -> (r: Record)
    requires
        rec.wf(),
    ensures
        r.wf(),
        r.view() == tag_part(rec.view()),
{
    let mut r = Record::new();
    proof {
        rec.lemma_wf_len();
    }
    let mut i: usize = 1;
    while i < FIELD_COUNT
        invariant
            1 <= i <= FIELD_COUNT,
            rec.wf(),
            r.wf(),
            rec.view().len() == FIELD_COUNT,
            r.view().len() == FIELD_COUNT,
            forall|j: int| 0 <= j < FIELD_COUNT ==> #[trigger] r.view()[j] == (if 1 <= j < i { rec.view()[j] } else { None }),
        decreases FIELD_COUNT - i,
    {
        let f = Field::from_index(i);
        if let Some(v) = rec.get(f) {
            r.set(f, v.clone());
        }
        i = i + 1;
    }
    assert(r.view() =~= tag_part(rec.view()));
    r
}

/// The arguments that apply a record's header fields to the container.
pub fn header_edit_args(rec: &Record) -> (r: Vec<String>)
    requires
        rec.wf(),
    ensures
        strings_view(r@) == header_args(rec.view()),
{
    let mut r: Vec<String> = Vec::new();
    let f = Field::Title;
    proof {
        reveal_strlit("-s");
        reveal_strlit("-d");
        reveal_strlit("=");
    }
    match rec.get(f) {
        Some(v) => {
            r.push(String::from_str("-s"));
            let mut a = String::from_str(f.name());
            a.append("=");
            a.append(v.as_str());
            assert(a@ =~= assignment(field_name(Field::Title), v@));
            r.push(a);
            assert(r@[0]@ =~= seq!['-', 's']);
        },
        None => {
            r.push(String::from_str("-d"));
            r.push(String::from_str(f.name()));
            assert(r@[0]@ =~= seq!['-', 'd']);
        },
    }
    assert(strings_view(r@) =~= header_args(rec.view()));
    r
}

/// The text handed to the editor: a line naming the file, then the record in
/// display order.
pub fn editable_text(file_name: &str, rec: &Record) -> (r: String)
    requires
        rec.wf(),
    ensures
        r@ == file_name@ + seq!['\n'] + encoding(rec.view(), display_fields()),
{
    proof {
        reveal_strlit("\n");
    }
    let mut r = String::from_str(file_name);
    r.append("\n");
    let order = display_order();
    let body = hashmap_to_format(rec, order.as_slice());
    r.append(body.as_str());
    r
}

/// The record shown for editing: the container's title and what the tag tree holds.
pub fn initial_record(title: String, tree: &TagTree) -> (r: Result<Record, TreeError>)
    ensures
        r is Ok <==> extraction(tree.view()) is Ok,
        r matches Ok(rec) ==> rec.wf() && extraction(tree.view()) == Ok::<_, TreeError>(
            rec.view().update(0, None),
        ) && rec.view()[0] == Some(title@),
        r matches Err(e) ==> extraction(tree.view()) == Err::<Seq<Option<Seq<char>>>, _>(e),
{
    match extract(tree) {
        Ok(mut rec) => {
            let ghost m = rec.view();
            rec.set(Field::Title, title);
            proof {
                crate::tags::lemma_extraction_shape(tree.view());
                assert(m[0] is None);
                assert(rec.view().update(0, None) =~= m);
            }
            Ok(rec)
        },
        Err(e) => Err(e),
    }
}

/// The value after a prefix of `n` characters on an info line; empty when
/// the line is shorter.
pub fn info_value(line: &str, n: usize) -> (r: String)
    ensures
        n <= line@.len() ==> r@ == line@.subrange(n as int, line@.len() as int),
        n > line@.len() ==> r@.len() == 0,
{
    let len = line.unicode_len();
    if n > len {
        String::new()
    } else {
        String::from_str(line.substring_char(n, len))
    }
}

/// What an edit asks for: the record decoded from the edited text, with
/// empty values removed.
pub open spec fn edited_record(text: Seq<char>) -> Seq<Option<Seq<char>>> {
    without_empty(decoding(text))
}

/// Applies edited text: decodes it, removes empty values, and merges the tag
/// fields into the tree. Returns the arguments that edit the container header
/// and the names of unrecognized headers. On an error the tree is unchanged.
pub fn apply_edit(text: &str, tree: &mut TagTree) -> (r: Result<(Vec<String>, Vec<String>), TreeError>)
    ensures
        r is Ok <==> merging(old(tree).view(), tag_part(edited_record(text@))) is Ok,
        r matches Ok((args, unknown)) ==> strings_view(args@) == header_args(edited_record(text@))
            && strings_view(unknown@) == unrecognized(lines(text@))
            && merging(old(tree).view(), tag_part(edited_record(text@))) == Ok::<_, TreeError>(final(tree).view()),
        r matches Err(e) ==> merging(old(tree).view(), tag_part(edited_record(text@))) == Err::<Seq<crate::tags::NodeView>, _>(e)
            && final(tree).view() == old(tree).view(),
{
    let (mut rec, unknown) = format_to_hashmap(text);
    remove_empty(&mut rec);
    let args = header_edit_args(&rec);
    let tags = tag_fields(&rec);
    match merge(tree, &tags) {
        Ok(()) => Ok((args, unknown)),
        Err(e) => Err(e),
    }
}

} // verus!
