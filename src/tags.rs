//! The tag tree as the reconciler sees it, and its two operations:
//! reading the file-level entry into a record and merging a record back.
use vstd::prelude::*;
use crate::field::{Field, FIELD_COUNT, field_index, field_at, field_name, field_named, is_header_field};
use crate::record::{Record, opt_view};

verus! {

/// A `Simple` element: one name/value pair.
pub struct SimpleTag {
    /// Text of the `Name` child; `None` when there is no such child.
    pub name: Option<String>,
    /// Text of the `String` child; `None` when there is no such child.
    pub value: Option<String>,
    /// Handle of the element this was read from; `None` for a new element.
    pub origin: Option<usize>,
}

/// A child of a top-level tag element.
pub enum TagChild {
    Simple(SimpleTag),
    /// Any other node (including `Targets`), carried through by handle.
    Other(usize),
}

/// A top-level element of the tag tree.
pub struct TagElement {
    /// `None` when the element has no `Targets` child; otherwise whether that
    /// child refers to a track.
    pub targets: Option<bool>,
    pub children: Vec<TagChild>,
    /// Handle of the element this was read from; `None` for a new element,
    /// which is written with an empty `Targets` child first.
    pub origin: Option<usize>,
}

/// A top-level node of the tag tree.
pub enum TagNode {
    Tag(TagElement),
    /// A node that is not an element, carried through by handle.
    Other(usize),
}

/// The tag tree: its top-level nodes in order.
pub struct TagTree {
    pub nodes: Vec<TagNode>,
}

/// A structural assumption about the tag tree that did not hold.
#[derive(Clone, Copy, Debug, PartialEq, Eq, Structural)]
pub enum TreeError {
    /// A top-level element has no `Targets` child.
    MissingTargets,
    /// A `Simple` element that must be updated has no `String` child.
    MissingString,
}

pub ghost struct SimpleView {
    pub name: Option<Seq<char>>,
    pub value: Option<Seq<char>>,
    pub origin: Option<usize>,
}

pub ghost enum ChildView {
    Simple(SimpleView),
    Other(usize),
}

pub ghost struct TagView {
    pub targets: Option<bool>,
    pub children: Seq<ChildView>,
    pub origin: Option<usize>,
}

pub ghost enum NodeView {
    Tag(TagView),
    Other(usize),
}

impl SimpleTag {
    pub open spec fn view(&self) -> SimpleView {
        SimpleView { name: opt_view(self.name), value: opt_view(self.value), origin: self.origin }
    }
}

pub open spec fn child_view(c: TagChild) -> ChildView {
    match c {
        TagChild::Simple(s) => ChildView::Simple(s.view()),
        TagChild::Other(h) => ChildView::Other(h),
    }
}

pub open spec fn children_view(cs: Seq<TagChild>) -> Seq<ChildView> {
    cs.map_values(|c: TagChild| child_view(c))
}

impl TagElement {
    pub open spec fn view(&self) -> TagView {
        TagView { targets: self.targets, children: children_view(self.children@), origin: self.origin }
    }
}

pub open spec fn node_view(n: TagNode) -> NodeView {
    match n {
        TagNode::Tag(e) => NodeView::Tag(e.view()),
        TagNode::Other(h) => NodeView::Other(h),
    }
}

pub open spec fn nodes_view(ns: Seq<TagNode>) -> Seq<NodeView> {
    ns.map_values(|n: TagNode| node_view(n))
}

impl TagTree {
    pub open spec fn view(&self) -> Seq<NodeView> {
        nodes_view(self.nodes@)
    }
}

/// The tag field a child stands for: a `Simple` whose name is a recognized tag field.
pub open spec fn tag_key(c: ChildView) -> Option<Field> {
    match c {
        ChildView::Simple(s) => match s.name {
            Some(n) => match field_named(n) {
                Some(f) => if is_header_field(f) { None } else { Some(f) },
                None => None,
            },
            None => None,
        },
        ChildView::Other(_) => None,
    }
}

/// Whether a node is a top-level element without a `Targets` child.
pub open spec fn lacks_targets(n: NodeView) -> bool {
    n matches NodeView::Tag(t) && t.targets is None
}

/// Whether a node is a metadata tag entry: its `Targets` names no track.
pub open spec fn is_entry(n: NodeView) -> bool {
    n matches NodeView::Tag(t) && t.targets == Some(false)
}

/// The position of the first metadata tag entry at or after `i`.
pub open spec fn find_entry(ns: Seq<NodeView>, i: nat) -> Option<nat>
    decreases ns.len() - i,
{
    if i >= ns.len() {
        None
    } else if is_entry(ns[i as int]) {
        Some(i)
    } else {
        find_entry(ns, i + 1)
    }
}

/// A found entry lies at or after the start of the search, and is an entry;
/// nothing between the start and it is one.
pub proof fn lemma_find_entry_bounds(ns: Seq<NodeView>, i: nat)
    ensures
        find_entry(ns, i) matches Some(m) ==> i <= m < ns.len() && is_entry(ns[m as int])
            && forall|j: int| i <= j < m ==> !is_entry(#[trigger] ns[j]),
        find_entry(ns, i) is None ==> forall|j: int| i <= j < ns.len() ==> !is_entry(#[trigger] ns[j]),
    decreases ns.len() - i,
{
    if i < ns.len() {
        lemma_find_entry_bounds(ns, i + 1);
    }
}

/// The position of the metadata tag entry.
pub open spec fn entry_index(ns: Seq<NodeView>) -> Option<nat> {
    find_entry(ns, 0)
}

/// Whether an element without `Targets` occurs among the first `k` nodes.
pub open spec fn missing_targets_before(ns: Seq<NodeView>, k: int) -> bool {
    exists|j: int| 0 <= j < k && j < ns.len() && lacks_targets(#[trigger] ns[j])
}

/// The record that extraction starts from: every tag field empty, no header field.
pub open spec fn blank_tags() -> Seq<Option<Seq<char>>> {
    Seq::new(FIELD_COUNT as nat, |i: int| if i == 0 { None } else { Some(Seq::<char>::empty()) })
}

/// The value text of a `Simple`, empty when it has no `String` child.
pub open spec fn simple_text(c: ChildView) -> Seq<char> {
    match c {
        ChildView::Simple(s) => match s.value {
            Some(v) => v,
            None => Seq::empty(),
        },
        ChildView::Other(_) => Seq::empty(),
    }
}

/// The record read from an entry's children; a later pair overrides an earlier one.
pub open spec fn extracted(cs: Seq<ChildView>) -> Seq<Option<Seq<char>>>
    decreases cs.len(),
{
    if cs.len() == 0 {
        blank_tags()
    } else {
        let r = extracted(cs.drop_last());
        match tag_key(cs.last()) {
            Some(f) => r.update(field_index(f) as int, Some(simple_text(cs.last()))),
            None => r,
        }
    }
}

/// An extracted record has one slot per field and no header field.
pub proof fn lemma_extracted_shape(cs: Seq<ChildView>)
    ensures
        extracted(cs).len() == FIELD_COUNT,
        extracted(cs)[0] is None,
    decreases cs.len(),
{
    if cs.len() > 0 {
        lemma_extracted_shape(cs.drop_last());
        if let Some(f) = tag_key(cs.last()) {
            assert(field_index(f) != 0);
        }
    }
}

/// What extraction yields on a tree.
pub open spec fn extraction(ns: Seq<NodeView>) -> Result<Seq<Option<Seq<char>>>, TreeError> {
    match entry_index(ns) {
        Some(m) => if missing_targets_before(ns, m as int) {
            Err(TreeError::MissingTargets)
        } else {
            match ns[m as int] {
                NodeView::Tag(t) => Ok(extracted(t.children)),
                NodeView::Other(_) => Ok(blank_tags()),
            }
        },
        None => if missing_targets_before(ns, ns.len() as int) {
            Err(TreeError::MissingTargets)
        } else {
            Ok(blank_tags())
        },
    }
}

/// The value a record holds for a tag field.
pub open spec fn tag_value(rec: Seq<Option<Seq<char>>>, f: Field) -> Option<Seq<char>> {
    rec[field_index(f) as int]
}

/// An entry's children after updating and deleting the recognized pairs.
pub open spec fn updated(cs: Seq<ChildView>, rec: Seq<Option<Seq<char>>>) -> Seq<ChildView>
    decreases cs.len(),
{
    if cs.len() == 0 {
        Seq::empty()
    } else {
        let p = updated(cs.drop_last(), rec);
        let c = cs.last();
        match tag_key(c) {
            Some(f) => match tag_value(rec, f) {
                Some(v) => match c {
                    ChildView::Simple(s) => p.push(ChildView::Simple(SimpleView { value: Some(v), ..s })),
                    ChildView::Other(_) => p,
                },
                None => p,
            },
            None => p.push(c),
        }
    }
}

/// Whether a recognized pair for a field occurs among the children.
pub open spec fn handled(cs: Seq<ChildView>, f: Field) -> bool {
    exists|j: int| 0 <= j < cs.len() && tag_key(#[trigger] cs[j]) == Some(f)
}

/// Whether a child is a recognized pair that must be updated but has no `String` child.
pub open spec fn needs_string(c: ChildView, rec: Seq<Option<Seq<char>>>) -> bool {
    match tag_key(c) {
        Some(f) => tag_value(rec, f) is Some && simple_lacks_value(c),
        None => false,
    }
}

/// Whether a child is a `Simple` without a `String` child.
pub open spec fn simple_lacks_value(c: ChildView) -> bool {
    match c {
        ChildView::Simple(s) => s.value is None,
        ChildView::Other(_) => false,
    }
}

/// Whether some pair that must be updated has no `String` child.
pub open spec fn lacks_string(cs: Seq<ChildView>, rec: Seq<Option<Seq<char>>>) -> bool {
    exists|j: int| 0 <= j < cs.len() && needs_string(#[trigger] cs[j], rec)
}

/// A new pair for a field.
pub open spec fn new_simple(f: Field, v: Seq<char>) -> ChildView {
    ChildView::Simple(SimpleView { name: Some(field_name(f)), value: Some(v), origin: None })
}

/// New pairs for the tag fields among the first `n` canonical ones that the
/// record holds and the children do not.
pub open spec fn additions(cs: Seq<ChildView>, rec: Seq<Option<Seq<char>>>, n: nat) -> Seq<ChildView>
    decreases n,
{
    if n <= 1 {
        Seq::empty()
    } else {
        let p = additions(cs, rec, (n - 1) as nat);
        let f = field_at((n - 1) as nat);
        match tag_value(rec, f) {
            Some(v) => if handled(cs, f) { p } else { p.push(new_simple(f, v)) },
            None => p,
        }
    }
}

/// The children of the entry after merging.
pub open spec fn merged_children(cs: Seq<ChildView>, rec: Seq<Option<Seq<char>>>) -> Seq<ChildView> {
    updated(cs, rec) + additions(cs, rec, FIELD_COUNT as nat)
}

/// Whether some child is a `Simple`.
pub open spec fn has_simple(cs: Seq<ChildView>) -> bool {
    exists|j: int| 0 <= j < cs.len() && cs[j] is Simple
}

/// The entry after merging, and the other nodes in their order.
pub open spec fn merged_parts(ns: Seq<NodeView>, rec: Seq<Option<Seq<char>>>) -> (TagView, Seq<NodeView>) {
    match entry_index(ns) {
        Some(m) => match ns[m as int] {
            NodeView::Tag(t) => (TagView { children: merged_children(t.children, rec), ..t }, ns.remove(m as int)),
            NodeView::Other(_) => (TagView { targets: Some(false), children: Seq::empty(), origin: None }, ns),
        },
        None => (
            TagView { targets: Some(false), children: additions(Seq::empty(), rec, FIELD_COUNT as nat), origin: None },
            ns,
        ),
    }
}

/// Whether the entry holds a pair that must be updated but has no `String` child.
pub open spec fn entry_lacks_string(ns: Seq<NodeView>, rec: Seq<Option<Seq<char>>>) -> bool {
    match entry_index(ns) {
        Some(m) => match ns[m as int] {
            NodeView::Tag(t) => lacks_string(t.children, rec),
            NodeView::Other(_) => false,
        },
        None => false,
    }
}

/// What merging a record into a tree yields.
pub open spec fn merging(ns: Seq<NodeView>, rec: Seq<Option<Seq<char>>>) -> Result<Seq<NodeView>, TreeError> {
    if missing_targets_before(ns, ns.len() as int) {
        Err(TreeError::MissingTargets)
    } else if entry_lacks_string(ns, rec) {
        Err(TreeError::MissingString)
    } else {
        let (e, rest) = merged_parts(ns, rec);
        if has_simple(e.children) {
            Ok(seq![NodeView::Tag(e)] + rest)
        } else {
            Ok(rest)
        }
    }
}

fn copy_opt(o: &Option<String>) -> (r: Option<String>)
    ensures
        opt_view(r) == opt_view(*o),
{
    match o {
        Some(s) => Some(s.clone()),
        None => None,
    }
}

impl SimpleTag {
    /// The recognized tag field this pair stands for.
    pub fn key(&self) -> (r: Option<Field>)
        ensures
            r == tag_key(ChildView::Simple(self.view())),
    {
        match &self.name {
            Some(n) => {
                let cs = crate::text::chars_of(n.as_str());
                match Field::from_name(cs.as_slice()) {
                    Some(f) => if f.is_header() { None } else { Some(f) },
                    None => None,
                }
            },
            None => None,
        }
    }
}

impl TagChild {
    /// The recognized tag field this child stands for.
    pub fn key(&self) -> (r: Option<Field>)
        ensures
            r == tag_key(child_view(*self)),
    {
        match self {
            TagChild::Simple(s) => s.key(),
            TagChild::Other(_) => None,
        }
    }
}

impl TagNode {
    /// Whether this node is a metadata tag entry.
    pub fn is_entry(&self) -> (r: bool)
        ensures
            r == is_entry(node_view(*self)),
    {
        match self {
            TagNode::Tag(t) => t.targets == Some(false),
            TagNode::Other(_) => false,
        }
    }

    /// Whether this node is an element without a `Targets` child.
    pub fn lacks_targets(&self) -> (r: bool)
        ensures
            r == lacks_targets(node_view(*self)),
    {
        match self {
            TagNode::Tag(t) => t.targets.is_none(),
            TagNode::Other(_) => false,
        }
    }
}

/// A successful extraction has one slot per field and no header field.
pub proof fn lemma_extraction_shape(ns: Seq<NodeView>)
    ensures
        extraction(ns) matches Ok(r) ==> r.len() == FIELD_COUNT && r[0] is None,
{
    if let Some(m) = entry_index(ns) {
        if let NodeView::Tag(t) = ns[m as int] {
            lemma_extracted_shape(t.children);
        }
    }
}

/// A record with every tag field empty and no header field.
fn blank_record() -> (r: Record)
    ensures
        r.wf(),
        r.view() == blank_tags(),
{
    let mut r = Record::new();
    let mut i: usize = 1;
    while i < FIELD_COUNT
        invariant
            1 <= i <= FIELD_COUNT,
            r.wf(),
            r.view().len() == FIELD_COUNT,
            forall|j: int| 0 <= j < FIELD_COUNT ==> #[trigger] r.view()[j] == (if 1 <= j < i { Some(Seq::<char>::empty()) } else { None::<Seq<char>> }),
        decreases FIELD_COUNT - i,
    {
        r.set(Field::from_index(i), String::new());
        i = i + 1;
    }
    assert(r.view() =~= blank_tags());
    r
}

/// The record held by an entry's children.
fn extract_children(cs: &Vec<TagChild>) -> (r: Record)
    ensures
        r.wf(),
        r.view() == extracted(children_view(cs@)),
{
    let ghost cv = children_view(cs@);
    let mut r = blank_record();
    let mut k: usize = 0;
    while k < cs.len()
        invariant
            k <= cs@.len(),
            cv == children_view(cs@),
            r.wf(),
            r.view() == extracted(cv.take(k as int)),
        decreases cs@.len() - k,
    {
        proof {
            assert(cv.take(k + 1).drop_last() =~= cv.take(k as int));
            assert(cv.take(k + 1).last() == child_view(cs@[k as int]));
        }
        let c = &cs[k];
        if let Some(f) = c.key() {
            if let TagChild::Simple(s) = c {
                let v = match &s.value {
                    Some(v) => v.clone(),
                    None => String::new(),
                };
                r.set(f, v);
            }
        }
        k = k + 1;
    }
    assert(cv.take(cs@.len() as int) =~= cv);
    r
}

/// Reads the metadata tag entry of a tree into a record: every tag field is
/// present, empty unless the entry holds a pair for it. Nodes after the entry
/// are not looked at.
pub fn extract(tree: &TagTree) -> (r: Result<Record, TreeError>)
    ensures
        r is Ok <==> extraction(tree.view()) is Ok,
        r matches Ok(rec) ==> rec.wf() && extraction(tree.view()) == Ok::<_, TreeError>(rec.view()),
        r matches Err(e) ==> extraction(tree.view()) == Err::<Seq<Option<Seq<char>>>, _>(e),
{
    let ghost ns = tree.view();
    let mut i: usize = 0;
    while i < tree.nodes.len()
        invariant
            ns == tree.view(),
            i <= ns.len(),
            !missing_targets_before(ns, i as int),
            entry_index(ns) == find_entry(ns, i as nat),
        decreases ns.len() - i,
    {
        let n = &tree.nodes[i];
        assert(ns[i as int] == node_view(tree.nodes@[i as int]));
        if n.lacks_targets() {
            proof {
                lemma_find_entry_bounds(ns, i as nat);
                assert(lacks_targets(ns[i as int]));
            }
            return Err(TreeError::MissingTargets);
        }
        if n.is_entry() {
            if let TagNode::Tag(t) = n {
                return Ok(extract_children(&t.children));
            }
        }
        i = i + 1;
    }
    Ok(blank_record())
}

impl TagChild {
    /// A copy of this child.
    pub fn copy(&self) -> (r: TagChild)
        ensures
            child_view(r) == child_view(*self),
    {
        match self {
            TagChild::Simple(s) => TagChild::Simple(
                SimpleTag { name: copy_opt(&s.name), value: copy_opt(&s.value), origin: s.origin },
            ),
            TagChild::Other(h) => TagChild::Other(*h),
        }
    }
}

/// The position of the metadata tag entry.
fn entry_position(nodes: &Vec<TagNode>) -> (r: Option<usize>)
    ensures
        r matches Some(m) ==> entry_index(nodes_view(nodes@)) == Some(m as nat),
        r is None ==> entry_index(nodes_view(nodes@)) is None,
{
    let ghost ns = nodes_view(nodes@);
    let mut i: usize = 0;
    while i < nodes.len()
        invariant
            ns == nodes_view(nodes@),
            i <= ns.len(),
            entry_index(ns) == find_entry(ns, i as nat),
        decreases ns.len() - i,
    {
        assert(ns[i as int] == node_view(nodes@[i as int]));
        if nodes[i].is_entry() {
            return Some(i);
        }
        i = i + 1;
    }
    None
}

/// Whether some element of the tree has no `Targets` child.
fn any_lacks_targets(nodes: &Vec<TagNode>) -> (r: bool)
    ensures
        r == missing_targets_before(nodes_view(nodes@), nodes@.len() as int),
{
    let ghost ns = nodes_view(nodes@);
    let mut i: usize = 0;
    while i < nodes.len()
        invariant
            ns == nodes_view(nodes@),
            i <= ns.len(),
            !missing_targets_before(ns, i as int),
        decreases ns.len() - i,
    {
        assert(ns[i as int] == node_view(nodes@[i as int]));
        if nodes[i].lacks_targets() {
            return true;
        }
        i = i + 1;
    }
    false
}

/// Whether a pair that must be updated has no `String` child.
fn any_lacks_string(cs: &Vec<TagChild>, rec: &Record) -> (r: bool)
    requires
        rec.wf(),
    ensures
        r == lacks_string(children_view(cs@), rec.view()),
{
    let ghost cv = children_view(cs@);
    let mut k: usize = 0;
    while k < cs.len()
        invariant
            rec.wf(),
            cv == children_view(cs@),
            k <= cv.len(),
            forall|j: int| 0 <= j < k ==> !needs_string(#[trigger] cv[j], rec.view()),
        decreases cv.len() - k,
    {
        assert(cv[k as int] == child_view(cs@[k as int]));
        if let Some(f) = cs[k].key() {
            if rec.get(f).is_some() {
                if let TagChild::Simple(s) = &cs[k] {
                    if s.value.is_none() {
                        return true;
                    }
                }
            }
        }
        k = k + 1;
    }
    false
}

/// Whether a pair for a field occurs among the children.
fn is_handled(cs: &Vec<TagChild>, f: Field) -> (r: bool)
    ensures
        r == handled(children_view(cs@), f),
{
    let ghost cv = children_view(cs@);
    let mut k: usize = 0;
    while k < cs.len()
        invariant
            cv == children_view(cs@),
            k <= cv.len(),
            forall|j: int| 0 <= j < k ==> tag_key(#[trigger] cv[j]) != Some(f),
        decreases cv.len() - k,
    {
        assert(cv[k as int] == child_view(cs@[k as int]));
        if cs[k].key() == Some(f) {
            return true;
        }
        k = k + 1;
    }
    false
}

/// Whether some child is a `Simple`.
fn any_simple(cs: &Vec<TagChild>) -> (r: bool)
    ensures
        r == has_simple(children_view(cs@)),
{
    let ghost cv = children_view(cs@);
    let mut k: usize = 0;
    while k < cs.len()
        invariant
            cv == children_view(cs@),
            k <= cv.len(),
            forall|j: int| 0 <= j < k ==> !(#[trigger] cv[j] is Simple),
        decreases cv.len() - k,
    {
        assert(cv[k as int] == child_view(cs@[k as int]));
        if let TagChild::Simple(_) = &cs[k] {
            return true;
        }
        k = k + 1;
    }
    false
}

/// Appends new pairs for the tag fields that the record holds and `cs` does not.
fn push_additions(out: &mut Vec<TagChild>, cs: &Vec<TagChild>, rec: &Record)
    requires
        rec.wf(),
    ensures
        children_view(final(out)@) == children_view(old(out)@) + additions(children_view(cs@), rec.view(), FIELD_COUNT as nat),
{
    let ghost cv = children_view(cs@);
    let ghost start = children_view(out@);
    let mut i: usize = 1;
    while i < FIELD_COUNT
        invariant
            1 <= i <= FIELD_COUNT,
            rec.wf(),
            cv == children_view(cs@),
            children_view(out@) == start + additions(cv, rec.view(), i as nat),
        decreases FIELD_COUNT - i,
    {
        let f = Field::from_index(i);
        let ghost before = out@;
        match rec.get(f) {
            Some(v) => {
                if !is_handled(cs, f) {
                    let name = String::from_str(f.name());
                    out.push(TagChild::Simple(SimpleTag { name: Some(name), value: Some(v.clone()), origin: None }));
                    assert(children_view(out@) =~= children_view(before).push(new_simple(f, v@)));
                }
            },
            None => {},
        }
        i = i + 1;
    }
}

/// The entry's children after merging.
fn merge_children(cs: &Vec<TagChild>, rec: &Record) -> (r: Vec<TagChild>)
    requires
        rec.wf(),
        !lacks_string(children_view(cs@), rec.view()),
    ensures
        children_view(r@) == merged_children(children_view(cs@), rec.view()),
{
    let ghost cv = children_view(cs@);
    let mut out: Vec<TagChild> = Vec::new();
    let mut k: usize = 0;
    while k < cs.len()
        invariant
            rec.wf(),
            cv == children_view(cs@),
            !lacks_string(cv, rec.view()),
            k <= cv.len(),
            children_view(out@) == updated(cv.take(k as int), rec.view()),
        decreases cv.len() - k,
    {
        proof {
            assert(cv.take(k + 1).drop_last() =~= cv.take(k as int));
            assert(cv.take(k + 1).last() == child_view(cs@[k as int]));
        }
        let ghost before = out@;
        let c = &cs[k];
        match c.key() {
            Some(f) => match rec.get(f) {
                Some(v) => {
                    if let TagChild::Simple(s) = c {
                        out.push(TagChild::Simple(SimpleTag { name: copy_opt(&s.name), value: Some(v.clone()), origin: s.origin }));
                        assert(children_view(out@) =~= children_view(before).push(
                            ChildView::Simple(SimpleView { value: Some(v@), ..s.view() }),
                        ));
                    }
                },
                None => {},
            },
            None => {
                out.push(c.copy());
                assert(children_view(out@) =~= children_view(before).push(child_view(*c)));
            },
        }
        k = k + 1;
    }
    assert(cv.take(cv.len() as int) =~= cv);
    push_additions(&mut out, cs, rec);
    out
}

/// Merges the tag fields of a record into the tree.
///
/// The metadata tag entry has each recognized pair updated to the record's
/// value, or removed when the record holds no value for it; pairs for the
/// record's other tag fields are appended. Without an entry, a new one is
/// made. The entry is then moved to the front, or left out if it holds no
/// `Simple` child. On an error the tree is unchanged.
pub fn merge(tree: &mut TagTree, rec: &Record) -> (r: Result<(), TreeError>)
    requires
        rec.wf(),
    ensures
        r is Ok <==> merging(old(tree).view(), rec.view()) is Ok,
        r is Ok ==> merging(old(tree).view(), rec.view()) == Ok::<_, TreeError>(final(tree).view()),
        r matches Err(e) ==> merging(old(tree).view(), rec.view()) == Err::<Seq<NodeView>, _>(e)
            && final(tree).view() == old(tree).view(),
{
    let ghost ns = tree.view();
    if any_lacks_targets(&tree.nodes) {
        return Err(TreeError::MissingTargets);
    }
    let pos = entry_position(&tree.nodes);
    proof {
        lemma_find_entry_bounds(ns, 0);
    }
    if let Some(m) = pos {
        if let TagNode::Tag(t) = &tree.nodes[m] {
            if any_lacks_string(&t.children, rec) {
                return Err(TreeError::MissingString);
            }
        }
    }
    let entry = match pos {
        Some(m) => {
            let node = tree.nodes.remove(m);
            assert(tree.view() =~= ns.remove(m as int));
            match node {
                TagNode::Tag(t) => {
                    let children = merge_children(&t.children, rec);
                    TagElement { targets: t.targets, children, origin: t.origin }
                },
                TagNode::Other(_) => TagElement { targets: Some(false), children: Vec::new(), origin: None },
            }
        },
        None => {
            let mut children: Vec<TagChild> = Vec::new();
            let none: Vec<TagChild> = Vec::new();
            push_additions(&mut children, &none, rec);
            assert(children_view(none@) =~= Seq::<ChildView>::empty());
            assert(children_view(children@) =~= additions(Seq::empty(), rec.view(), FIELD_COUNT as nat));
            TagElement { targets: Some(false), children, origin: None }
        },
    };
    assert(entry.view() == merged_parts(ns, rec.view()).0);
    if any_simple(&entry.children) {
        let ghost rest = tree.view();
        tree.nodes.insert(0, TagNode::Tag(entry));
        assert(tree.view() =~= seq![NodeView::Tag(merged_parts(ns, rec.view()).0)] + rest);
    }
    Ok(())
}

} // verus!
