use vstd::prelude::*;

use crate::markup::{markup_events, read_events};
use crate::text::{chars_of, is_blank, trim_bounds};

verus! {

/// A schema-free value built from markup: an object of named fields, an array,
/// or a piece of text.
#[derive(Debug)]
pub enum Value {
    Object(Vec<(String, Value)>),
    Array(Vec<Value>),
    Text(String),
}

/// The plain form of a `Value`.
pub enum Tree {
    Object(Seq<(Seq<char>, Tree)>),
    Array(Seq<Tree>),
    Text(Seq<char>),
}

/// The plain form of `v`.
pub open spec fn tree_of(v: Value) -> Tree
    decreases v,
{
    match v {
        Value::Object(f) => Tree::Object(
            Seq::new(
                f@.len(),
                |i: int|
                    if 0 <= i < f@.len() {
                        (f@[i].0@, tree_of(f@[i].1))
                    } else {
                        (Seq::empty(), Tree::Text(Seq::empty()))
                    },
            ),
        ),
        Value::Array(a) => Tree::Array(
            Seq::new(
                a@.len(),
                |i: int|
                    if 0 <= i < a@.len() {
                        tree_of(a@[i])
                    } else {
                        Tree::Text(Seq::empty())
                    },
            ),
        ),
        Value::Text(t) => Tree::Text(t@),
    }
}

impl View for Value {
    type V = Tree;

    open spec fn view(&self) -> Tree {
        tree_of(*self)
    }
}

/// The plain form of the fields of an object.
pub open spec fn fields_view(f: Seq<(String, Value)>) -> Seq<(Seq<char>, Tree)> {
    f.map_values(|p: (String, Value)| (p.0@, p.1@))
}

/// The plain form of the items of an array.
pub open spec fn items_view(a: Seq<Value>) -> Seq<Tree> {
    a.map_values(|v: Value| v@)
}

proof fn lemma_object_view(f: Vec<(String, Value)>)
    ensures
        Value::Object(f)@ == Tree::Object(fields_view(f@)),
{
    let v = Value::Object(f);
    assert(v@->Object_0.len() == f.len());
    assert(v@->Object_0 =~= fields_view(f@));
}

proof fn lemma_array_view(a: Vec<Value>)
    ensures
        Value::Array(a)@ == Tree::Array(items_view(a@)),
{
    assert(Value::Array(a)@->Array_0 =~= items_view(a@));
}

/// One event of a markup token stream.
#[derive(Debug)]
pub enum MarkupEvent {
    /// An element opens; its name and its attributes as (name, value) pairs.
    Start { name: String, attributes: Vec<(String, String)> },
    /// An element opens and closes at once.
    Empty { name: String, attributes: Vec<(String, String)> },
    /// The innermost open element closes.
    End,
    /// Character data.
    Text(String),
    /// A declaration, comment, CDATA section, processing instruction or
    /// document type, none of which shapes the value.
    Ignored,
}

/// A failure to convert markup into a value.
#[derive(Debug)]
pub enum Error {
    /// A name, attribute or text is not valid UTF-8.
    ParseStringError(String),
    /// The tokenizer rejected the markup.
    XmlError(String),
    /// The markup ended while an element was still open.
    UnexpectedEof,
    /// A child element's name is already the name of a field that is not an array.
    InvalidArray,
}

/// The plain form of a markup event.
pub enum EventView {
    Start(Seq<char>, Seq<(Seq<char>, Seq<char>)>),
    Empty(Seq<char>, Seq<(Seq<char>, Seq<char>)>),
    End,
    Text(Seq<char>),
    Ignored,
}

impl View for MarkupEvent {
    type V = EventView;

    open spec fn view(&self) -> EventView {
        match self {
            MarkupEvent::Start { name, attributes } => EventView::Start(
                name@,
                attrs_view(attributes@),
            ),
            MarkupEvent::Empty { name, attributes } => EventView::Empty(
                name@,
                attrs_view(attributes@),
            ),
            MarkupEvent::End => EventView::End,
            MarkupEvent::Text(t) => EventView::Text(t@),
            MarkupEvent::Ignored => EventView::Ignored,
        }
    }
}

/// The plain form of a conversion failure.
pub enum ErrorView {
    ParseStringError(Seq<char>),
    XmlError(Seq<char>),
    UnexpectedEof,
    InvalidArray,
}

impl View for Error {
    type V = ErrorView;

    open spec fn view(&self) -> ErrorView {
        match self {
            Error::ParseStringError(m) => ErrorView::ParseStringError(m@),
            Error::XmlError(m) => ErrorView::XmlError(m@),
            Error::UnexpectedEof => ErrorView::UnexpectedEof,
            Error::InvalidArray => ErrorView::InvalidArray,
        }
    }
}

/// The plain form of a sequence of events.
pub open spec fn events_view(e: Seq<MarkupEvent>) -> Seq<EventView> {
    e.map_values(|x: MarkupEvent| x@)
}

/// The plain form of an optional failure.
pub open spec fn failure_view(f: Option<Error>) -> Option<ErrorView> {
    match f {
        Some(e) => Some(e@),
        None => None,
    }
}

/// The key under which an element's character data is kept.
pub open spec fn text_key() -> Seq<char> {
    "_"@
}

/// The position of the field named `k` in `f` (the last one, should there be
/// several), or -1 when there is none.
pub open spec fn key_index(f: Seq<(Seq<char>, Tree)>, k: Seq<char>) -> int
    decreases f.len(),
{
    if f.len() == 0 {
        -1
    } else if f.last().0 == k {
        f.len() - 1
    } else {
        key_index(f.drop_last(), k)
    }
}

proof fn lemma_key_index_range(f: Seq<(Seq<char>, Tree)>, k: Seq<char>)
    ensures
        -1 <= key_index(f, k) < f.len(),
        key_index(f, k) >= 0 ==> f[key_index(f, k)].0 == k,
        key_index(f, k) == -1 ==> forall|i: int| 0 <= i < f.len() ==> (#[trigger] f[i]).0 != k,
    decreases f.len(),
{
    if f.len() > 0 {
        lemma_key_index_range(f.drop_last(), k);
        if f.last().0 != k {
            assert forall|i: int| 0 <= i < f.len() - 1 implies (#[trigger] f[i]).0 == f.drop_last()[i].0 by {}
        }
    }
}

/// `f` with the field `k` set to `v`: replaced where it is, added at the end
/// when it is new.
pub open spec fn with_field(f: Seq<(Seq<char>, Tree)>, k: Seq<char>, v: Tree) -> Seq<
    (Seq<char>, Tree),
> {
    let i = key_index(f, k);
    if i >= 0 {
        f.update(i, (k, v))
    } else {
        f.push((k, v))
    }
}

/// `f` with `child` added to the array named `name`: a new one-item array when
/// there is no such field, none when the field is not an array.
pub open spec fn with_child(f: Seq<(Seq<char>, Tree)>, name: Seq<char>, child: Tree) -> Option<
    Seq<(Seq<char>, Tree)>,
> {
    let i = key_index(f, name);
    if i < 0 {
        Some(f.push((name, Tree::Array(seq![child]))))
    } else {
        match f[i].1 {
            Tree::Array(a) => Some(f.update(i, (name, Tree::Array(a.push(child))))),
            _ => None,
        }
    }
}

/// The plain form of attribute pairs.
pub open spec fn attrs_view(a: Seq<(String, String)>) -> Seq<(Seq<char>, Seq<char>)> {
    a.map_values(|p: (String, String)| (p.0@, p.1@))
}

/// The fields that the attributes `a` give, each a text; a repeated name keeps
/// its last value.
pub open spec fn attr_fields(a: Seq<(Seq<char>, Seq<char>)>) -> Seq<(Seq<char>, Tree)>
    decreases a.len(),
{
    if a.len() == 0 {
        Seq::empty()
    } else {
        with_field(attr_fields(a.drop_last()), a.last().0, Tree::Text(a.last().1))
    }
}

/// An open element: its name and the fields gathered so far.
pub type Scope = (Seq<char>, Seq<(Seq<char>, Tree)>);

/// Where the conversion stands after a prefix of the events.
pub enum Scan {
    /// Still reading, with the open scopes, outermost (the document) first.
    Open(Seq<Scope>),
    /// The document scope was closed with these fields.
    Closed(Seq<(Seq<char>, Tree)>),
    /// Failed.
    Failed(ErrorView),
}

/// The scopes after the innermost one, `st.last()`, takes the fields `f`.
pub open spec fn with_top(st: Seq<Scope>, f: Seq<(Seq<char>, Tree)>) -> Seq<Scope> {
    st.update(st.len() - 1, (st.last().0, f))
}

/// The effect of one event on the open scopes `st`.
pub open spec fn step_open(st: Seq<Scope>, e: EventView) -> Scan {
    match e {
        EventView::Start(name, attributes) => Scan::Open(st.push((name, attr_fields(attributes)))),
        EventView::Empty(name, attributes) => match with_child(
            st.last().1,
            name,
            Tree::Object(attr_fields(attributes)),
        ) {
            Some(f) => Scan::Open(with_top(st, f)),
            None => Scan::Failed(ErrorView::InvalidArray),
        },
        EventView::End => if st.len() <= 1 {
            Scan::Closed(st.last().1)
        } else {
            let rest = st.drop_last();
            match with_child(rest.last().1, st.last().0, Tree::Object(st.last().1)) {
                Some(f) => Scan::Open(with_top(rest, f)),
                None => Scan::Failed(ErrorView::InvalidArray),
            }
        },
        EventView::Text(t) => if is_blank(t) {
            Scan::Open(st)
        } else {
            Scan::Open(with_top(st, with_field(st.last().1, text_key(), Tree::Text(t))))
        },
        EventView::Ignored => Scan::Open(st),
    }
}

/// Where the conversion stands after the events `evs`: it starts with the
/// document scope open and empty, and stops at the first failure or when the
/// document scope closes.
pub open spec fn scan(evs: Seq<EventView>) -> Scan
    decreases evs.len(),
{
    if evs.len() == 0 {
        Scan::Open(seq![(Seq::empty(), Seq::empty())])
    } else {
        match scan(evs.drop_last()) {
            Scan::Open(st) => step_open(st, evs.last()),
            other => other,
        }
    }
}

/// The value that the events `evs` make, when the stream then ends, or
/// fails with `failure`.
pub open spec fn convert_spec(evs: Seq<EventView>, failure: Option<ErrorView>) -> Result<
    Tree,
    ErrorView,
> {
    match scan(evs) {
        Scan::Closed(f) => Ok(Tree::Object(f)),
        Scan::Failed(e) => Err(e),
        Scan::Open(st) => match failure {
            Some(e) => Err(e),
            None => if st.len() == 1 {
                Ok(Tree::Object(st[0].1))
            } else {
                Err(ErrorView::UnexpectedEof)
            },
        },
    }
}

proof fn lemma_scan_stays(evs: Seq<EventView>, m: int)
    requires
        0 <= m <= evs.len(),
        !(scan(evs.take(m)) is Open),
    ensures
        scan(evs) == scan(evs.take(m)),
    decreases evs.len(),
{
    if evs.len() == m {
        assert(evs.take(m) =~= evs);
    } else {
        assert(evs.drop_last().take(m) =~= evs.take(m));
        lemma_scan_stays(evs.drop_last(), m);
    }
}

proof fn lemma_key_index_after(f: Seq<(Seq<char>, Tree)>, k: Seq<char>)
    ensures
        forall|j: int| key_index(f, k) < j < f.len() ==> (#[trigger] f[j]).0 != k,
    decreases f.len(),
{
    lemma_key_index_range(f, k);
    if f.len() > 0 && f.last().0 != k {
        lemma_key_index_after(f.drop_last(), k);
        lemma_key_index_range(f.drop_last(), k);
        assert forall|j: int| key_index(f, k) < j < f.len() implies (#[trigger] f[j]).0 != k by {
            if j < f.len() - 1 {
                assert(f.drop_last()[j] == f[j]);
            }
        }
    }
}

proof fn lemma_key_index_is(f: Seq<(Seq<char>, Tree)>, k: Seq<char>, i: int)
    requires
        0 <= i < f.len(),
        f[i].0 == k,
        forall|j: int| i < j < f.len() ==> (#[trigger] f[j]).0 != k,
    ensures
        key_index(f, k) == i,
    decreases f.len(),
{
    if i < f.len() - 1 {
        assert(f.drop_last()[i] == f[i]);
        assert forall|j: int| i < j < f.drop_last().len() implies (#[trigger] f.drop_last()[j]).0
            != k by {
            assert(f.drop_last()[j] == f[j]);
        }
        lemma_key_index_is(f.drop_last(), k, i);
    }
}

proof fn lemma_key_index_absent(f: Seq<(Seq<char>, Tree)>, k: Seq<char>)
    requires
        forall|j: int| 0 <= j < f.len() ==> (#[trigger] f[j]).0 != k,
    ensures
        key_index(f, k) == -1,
    decreases f.len(),
{
    if f.len() > 0 {
        assert forall|j: int| 0 <= j < f.drop_last().len() implies (#[trigger] f.drop_last()[j]).0
            != k by {
            assert(f.drop_last()[j] == f[j]);
        }
        lemma_key_index_absent(f.drop_last(), k);
    }
}

/// Setting a field other than `k` adds no field named `k`.
proof fn lemma_with_field_keeps_absent(
    f: Seq<(Seq<char>, Tree)>,
    k: Seq<char>,
    other: Seq<char>,
    v: Tree,
)
    requires
        other != k,
        forall|j: int| 0 <= j < f.len() ==> (#[trigger] f[j]).0 != k,
    ensures
        forall|j: int|
            0 <= j < with_field(f, other, v).len() ==> (#[trigger] with_field(f, other, v)[j]).0
                != k,
{
    lemma_key_index_range(f, other);
}

/// Attributes none of which is named `k` give no field named `k`.
proof fn lemma_attr_fields_absent(a: Seq<(Seq<char>, Seq<char>)>, k: Seq<char>)
    requires
        forall|j: int| 0 <= j < a.len() ==> (#[trigger] a[j]).0 != k,
    ensures
        forall|j: int| 0 <= j < attr_fields(a).len() ==> (#[trigger] attr_fields(a)[j]).0 != k,
    decreases a.len(),
{
    if a.len() > 0 {
        assert forall|j: int| 0 <= j < a.drop_last().len() implies (#[trigger] a.drop_last()[j]).0
            != k by {
            assert(a.drop_last()[j] == a[j]);
        }
        lemma_attr_fields_absent(a.drop_last(), k);
        lemma_with_field_keeps_absent(attr_fields(a.drop_last()), k, a.last().0, Tree::Text(a.last().1));
    }
}

/// Whether no two fields of `f` share a name.
pub open spec fn keys_unique(f: Seq<(Seq<char>, Tree)>) -> bool {
    forall|i: int, j: int| 0 <= i < j < f.len() ==> #[trigger] f[i].0 != #[trigger] f[j].0
}

/// Whether every object within `t`, `t` included, has fields of distinct names.
pub open spec fn well_formed(t: Tree) -> bool
    decreases t,
{
    match t {
        Tree::Object(f) => keys_unique(f) && forall|i: int|
            0 <= i < f.len() ==> well_formed(#[trigger] f[i].1),
        Tree::Array(a) => forall|i: int| 0 <= i < a.len() ==> well_formed(#[trigger] a[i]),
        Tree::Text(_) => true,
    }
}

/// Whether the fields `f` have distinct names and well-formed values.
pub open spec fn fields_well_formed(f: Seq<(Seq<char>, Tree)>) -> bool {
    keys_unique(f) && forall|i: int| 0 <= i < f.len() ==> well_formed(#[trigger] f[i].1)
}

proof fn lemma_with_field_well_formed(f: Seq<(Seq<char>, Tree)>, k: Seq<char>, v: Tree)
    requires
        fields_well_formed(f),
        well_formed(v),
    ensures
        fields_well_formed(with_field(f, k, v)),
{
    lemma_key_index_range(f, k);
    let g = with_field(f, k, v);
    if key_index(f, k) < 0 {
        assert forall|i: int, j: int| 0 <= i < j < g.len() implies #[trigger] g[i].0
            != #[trigger] g[j].0 by {
            if j == f.len() {
                assert(f[i].0 != k);
            }
        }
    }
    assert forall|i: int| 0 <= i < g.len() implies well_formed(#[trigger] g[i].1) by {
        if i < f.len() && g[i] == f[i] {
        }
    }
}

proof fn lemma_with_child_well_formed(f: Seq<(Seq<char>, Tree)>, name: Seq<char>, child: Tree)
    requires
        fields_well_formed(f),
        well_formed(child),
        with_child(f, name, child) is Some,
    ensures
        fields_well_formed(with_child(f, name, child)->0),
{
    lemma_key_index_range(f, name);
    let i = key_index(f, name);
    if i < 0 {
        let arr = Tree::Array(seq![child]);
        assert(well_formed(arr)) by {
            assert forall|j: int| 0 <= j < 1 implies well_formed(#[trigger] seq![child][j]) by {}
        }
        lemma_with_field_well_formed(f, name, arr);
        assert(with_field(f, name, arr) == with_child(f, name, child)->0);
    } else {
        let a = f[i].1->Array_0;
        assert(well_formed(f[i].1));
        let arr = Tree::Array(a.push(child));
        assert(well_formed(arr)) by {
            assert forall|j: int| 0 <= j < a.len() + 1 implies well_formed(#[trigger] a.push(child)[j]) by {
                if j < a.len() {
                    assert(a.push(child)[j] == a[j]);
                }
            }
        }
        lemma_with_field_well_formed(f, name, arr);
        assert(with_field(f, name, arr) == with_child(f, name, child)->0);
    }
}

proof fn lemma_attr_fields_well_formed(a: Seq<(Seq<char>, Seq<char>)>)
    ensures
        fields_well_formed(attr_fields(a)),
    decreases a.len(),
{
    if a.len() > 0 {
        lemma_attr_fields_well_formed(a.drop_last());
        lemma_with_field_well_formed(attr_fields(a.drop_last()), a.last().0, Tree::Text(a.last().1));
    }
}

/// Whether every open scope of `st` has well-formed fields.
pub open spec fn scopes_well_formed(st: Seq<Scope>) -> bool {
    forall|j: int| 0 <= j < st.len() ==> fields_well_formed(#[trigger] st[j].1)
}

proof fn lemma_step_well_formed(st: Seq<Scope>, e: EventView)
    requires
        st.len() >= 1,
        scopes_well_formed(st),
    ensures
        step_open(st, e) matches Scan::Open(st2) ==> st2.len() >= 1 && scopes_well_formed(st2),
        step_open(st, e) matches Scan::Closed(f) ==> fields_well_formed(f),
{
    match e {
        EventView::Start(name, attributes) => {
            lemma_attr_fields_well_formed(attributes);
            let st2 = st.push((name, attr_fields(attributes)));
            assert forall|j: int| 0 <= j < st2.len() implies fields_well_formed(#[trigger] st2[j].1) by {
                if j < st.len() {
                    assert(st2[j] == st[j]);
                }
            }
        },
        EventView::Empty(name, attributes) => {
            lemma_attr_fields_well_formed(attributes);
            let child = Tree::Object(attr_fields(attributes));
            assert(well_formed(child));
            if with_child(st.last().1, name, child) is Some {
                lemma_with_child_well_formed(st.last().1, name, child);
                let st2 = with_top(st, with_child(st.last().1, name, child)->0);
                assert forall|j: int| 0 <= j < st2.len() implies fields_well_formed(
                    #[trigger] st2[j].1,
                ) by {
                    if j < st.len() - 1 {
                        assert(st2[j] == st[j]);
                    }
                }
            }
        },
        EventView::End => {
            if st.len() > 1 {
                let rest = st.drop_last();
                let child = Tree::Object(st.last().1);
                assert(fields_well_formed(st[st.len() - 1].1));
                assert(well_formed(child));
                assert(fields_well_formed(rest[rest.len() - 1].1)) by {
                    assert(rest[rest.len() - 1] == st[rest.len() - 1]);
                }
                if with_child(rest.last().1, st.last().0, child) is Some {
                    lemma_with_child_well_formed(rest.last().1, st.last().0, child);
                    let st2 = with_top(rest, with_child(rest.last().1, st.last().0, child)->0);
                    assert forall|j: int| 0 <= j < st2.len() implies fields_well_formed(
                        #[trigger] st2[j].1,
                    ) by {
                        if j < rest.len() - 1 {
                            assert(st2[j] == st[j]);
                        }
                    }
                }
            } else {
                assert(fields_well_formed(st[st.len() - 1].1));
            }
        },
        EventView::Text(t) => {
            if !is_blank(t) {
                lemma_with_field_well_formed(st.last().1, text_key(), Tree::Text(t));
                let st2 = with_top(st, with_field(st.last().1, text_key(), Tree::Text(t)));
                assert forall|j: int| 0 <= j < st2.len() implies fields_well_formed(
                    #[trigger] st2[j].1,
                ) by {
                    if j < st.len() - 1 {
                        assert(st2[j] == st[j]);
                    }
                }
            }
        },
        EventView::Ignored => {},
    }
}

proof fn lemma_scan_well_formed(evs: Seq<EventView>)
    ensures
        scan(evs) matches Scan::Open(st) ==> st.len() >= 1 && scopes_well_formed(st),
        scan(evs) matches Scan::Closed(f) ==> fields_well_formed(f),
    decreases evs.len(),
{
    if evs.len() == 0 {
        let st = seq![(Seq::<char>::empty(), Seq::<(Seq<char>, Tree)>::empty())];
        assert(scopes_well_formed(st)) by {
            assert forall|j: int| 0 <= j < st.len() implies fields_well_formed(#[trigger] st[j].1) by {}
        }
    } else {
        lemma_scan_well_formed(evs.drop_last());
        if let Scan::Open(st) = scan(evs.drop_last()) {
            lemma_step_well_formed(st, evs.last());
        }
    }
}

/// Every object that conversion builds has fields of distinct names.
pub proof fn converted_keys_are_unique(evs: Seq<EventView>, failure: Option<ErrorView>)
    ensures
        convert_spec(evs, failure) matches Ok(t) ==> well_formed(t),
{
    lemma_scan_well_formed(evs);
    if let Scan::Open(st) = scan(evs) {
        assert(fields_well_formed(st[0].1));
    }
}

/// The value of the field named `k` in `f`, if there is one.
pub open spec fn field_of(f: Seq<(Seq<char>, Tree)>, k: Seq<char>) -> Option<Tree> {
    if key_index(f, k) >= 0 {
        Some(f[key_index(f, k)].1)
    } else {
        None
    }
}

/// The items of an array field, none when the field is absent.
pub open spec fn array_items(v: Option<Tree>) -> Seq<Tree> {
    match v {
        Some(Tree::Array(a)) => a,
        _ => Seq::empty(),
    }
}

proof fn lemma_keys_differ_absent(f: Seq<(Seq<char>, Tree)>, k: Seq<char>)
    requires
        forall|j: int| 0 <= j < f.len() ==> (#[trigger] f[j]).0 != k,
    ensures
        field_of(f, k) is None,
{
    lemma_key_index_absent(f, k);
}

/// A child element joins the array under its name: a new one-item array when
/// the field is absent, the existing items followed by the child when it is an
/// array, and a failure when the field holds anything else; every other field
/// keeps its value. With each sibling of a name added in document order, the
/// array under that name holds all of them, in that order, however other
/// siblings are interleaved.
pub proof fn child_joins_array(f: Seq<(Seq<char>, Tree)>, name: Seq<char>, child: Tree)
    ensures
        with_child(f, name, child) is None <==> (field_of(f, name) is Some && !(field_of(
            f,
            name,
        )->0 is Array)),
        with_child(f, name, child) is Some ==> field_of(with_child(f, name, child)->0, name)
            == Some(Tree::Array(array_items(field_of(f, name)).push(child))),
        with_child(f, name, child) is Some ==> forall|k: Seq<char>|
            k != name ==> #[trigger] field_of(with_child(f, name, child)->0, k) == field_of(f, k),
{
    lemma_key_index_range(f, name);
    lemma_key_index_after(f, name);
    if with_child(f, name, child) is Some {
        let g = with_child(f, name, child)->0;
        let i = key_index(f, name);
        if i < 0 {
            assert(seq![child] =~= Seq::<Tree>::empty().push(child));
            lemma_key_index_is(g, name, f.len() as int);
            assert forall|k: Seq<char>| k != name implies #[trigger] field_of(g, k) == field_of(f, k) by {
                assert(g.drop_last() =~= f);
                assert(g.last().0 == name);
                assert(key_index(g, k) == key_index(f, k));
                lemma_key_index_range(f, k);
                if key_index(f, k) >= 0 {
                    assert(g[key_index(f, k)] == f[key_index(f, k)]);
                }
            }
        } else {
            assert forall|j: int| i < j < g.len() implies (#[trigger] g[j]).0 != name by {
                assert(g[j] == f[j]);
            }
            lemma_key_index_is(g, name, i);
            assert forall|k: Seq<char>| k != name implies #[trigger] field_of(g, k) == field_of(f, k) by {
                lemma_key_index_update(f, k, i, (name, Tree::Array(array_items(field_of(f, name)).push(child))));
            }
        }
    }
}

/// Replacing, at position `i`, a field named other than `k` by another field
/// named other than `k` leaves the field named `k` as it was.
proof fn lemma_key_index_update(f: Seq<(Seq<char>, Tree)>, k: Seq<char>, i: int, p: (Seq<char>, Tree))
    requires
        0 <= i < f.len(),
        f[i].0 != k,
        p.0 != k,
    ensures
        key_index(f.update(i, p), k) == key_index(f, k),
        key_index(f, k) >= 0 ==> f.update(i, p)[key_index(f, k)] == f[key_index(f, k)],
    decreases f.len(),
{
    lemma_key_index_range(f, k);
    let g = f.update(i, p);
    if i < f.len() - 1 {
        if f.last().0 != k {
            assert(g.drop_last() =~= f.drop_last().update(i, p));
            lemma_key_index_update(f.drop_last(), k, i, p);
            lemma_key_index_range(f.drop_last(), k);
        }
    } else {
        assert(g.drop_last() =~= f.drop_last());
    }
}

proof fn lemma_with_field_keeps_field(f: Seq<(Seq<char>, Tree)>, k: Seq<char>, other: Seq<char>, v: Tree)
    requires
        other != k,
        field_of(f, k) is None,
    ensures
        field_of(with_field(f, other, v), k) is None,
{
    lemma_key_index_range(f, k);
    lemma_with_field_keeps_absent(f, k, other, v);
    lemma_keys_differ_absent(with_field(f, other, v), k);
}

proof fn lemma_with_child_keeps_field(f: Seq<(Seq<char>, Tree)>, k: Seq<char>, name: Seq<char>, c: Tree)
    requires
        name != k,
        field_of(f, k) is None,
        with_child(f, name, c) is Some,
    ensures
        field_of(with_child(f, name, c)->0, k) is None,
{
    child_joins_array(f, name, c);
}

/// Only character data gives an element a text field: after any event, an open
/// element that has a field `_` either had it before, or the event was non-blank
/// character data directly inside it, an attribute of it named `_`, or a child
/// of it named `_`. So an element whose direct character data is all blank, with
/// no attribute or child named `_`, has no text field.
pub proof fn text_field_only_from_text(st: Seq<Scope>, e: EventView)
    requires
        st.len() >= 1,
    ensures
        step_open(st, e) matches Scan::Open(st2) ==> forall|j: int|
            0 <= j < st2.len() && #[trigger] field_of(st2[j].1, text_key()) is Some ==> {
                ||| (j < st.len() && field_of(st[j].1, text_key()) is Some)
                ||| (e matches EventView::Text(t) && !is_blank(t) && j == st.len() - 1)
                ||| (e matches EventView::Start(_, a) && j == st.len() && exists|i: int|
                    0 <= i < a.len() && (#[trigger] a[i]).0 == text_key())
                ||| (e matches EventView::Empty(n, _) && n == text_key() && j == st.len() - 1)
                ||| (e is End && st.last().0 == text_key() && j == st.len() - 2)
            },
{
    let k = text_key();
    if step_open(st, e) is Open {
        let st2 = step_open(st, e)->Open_0;
        assert forall|j: int|
            0 <= j < st2.len() && #[trigger] field_of(st2[j].1, k) is Some implies {
                ||| (j < st.len() && field_of(st[j].1, k) is Some)
                ||| (e matches EventView::Text(t) && !is_blank(t) && j == st.len() - 1)
                ||| (e matches EventView::Start(_, a) && j == st.len() && exists|i: int|
                    0 <= i < a.len() && (#[trigger] a[i]).0 == k)
                ||| (e matches EventView::Empty(n, _) && n == k && j == st.len() - 1)
                ||| (e is End && st.last().0 == k && j == st.len() - 2)
            } by {
            match e {
                EventView::Start(n, a) => {
                    if j == st.len() && !(exists|i: int| 0 <= i < a.len() && (#[trigger] a[i]).0 == k) {
                        lemma_attr_fields_absent(a, k);
                        lemma_keys_differ_absent(attr_fields(a), k);
                    }
                },
                EventView::Empty(n, a) => {
                    if j == st.len() - 1 && n != k && field_of(st[j].1, k) is None {
                        lemma_with_child_keeps_field(st.last().1, k, n, Tree::Object(attr_fields(a)));
                    }
                },
                EventView::End => {
                    let rest = st.drop_last();
                    if j == st.len() - 2 && st.last().0 != k && field_of(st[j].1, k) is None {
                        assert(rest.last() == st[j]);
                        lemma_with_child_keeps_field(rest.last().1, k, st.last().0, Tree::Object(st.last().1));
                    }
                },
                EventView::Text(t) => {},
                EventView::Ignored => {},
            }
        }
    }
}

/// Character data that is whitespace only is discarded: it leaves every state
/// of the conversion as it was.
pub proof fn blank_text_is_discarded(st: Seq<Scope>, t: Seq<char>)
    requires
        is_blank(t),
    ensures
        step_open(st, EventView::Text(t)) == Scan::Open(st),
{
}

proof fn lemma_scan_blank_texts(
    evs: Seq<EventView>,
    name: Seq<char>,
    attributes: Seq<(Seq<char>, Seq<char>)>,
    texts: Seq<Seq<char>>,
    j: int,
)
    requires
        0 <= j <= texts.len(),
        forall|i: int| 0 <= i < texts.len() ==> is_blank(#[trigger] texts[i]),
        evs == seq![EventView::Start(name, attributes)] + texts.map_values(
            |t: Seq<char>| EventView::Text(t),
        ) + seq![EventView::End],
    ensures
        scan(evs.take(1 + j)) == Scan::Open(
            seq![
                (Seq::<char>::empty(), Seq::<(Seq<char>, Tree)>::empty()),
                (name, attr_fields(attributes)),
            ],
        ),
    decreases j,
{
    let root: Scope = (Seq::empty(), Seq::empty());
    if j == 0 {
        assert(evs.take(1).drop_last() =~= Seq::<EventView>::empty());
        assert(seq![root].push((name, attr_fields(attributes))) =~= seq![
            root,
            (name, attr_fields(attributes)),
        ]);
    } else {
        lemma_scan_blank_texts(evs, name, attributes, texts, j - 1);
        assert(evs.take(1 + j).drop_last() =~= evs.take(j));
        assert(evs.take(1 + j).last() == EventView::Text(texts[j - 1]));
    }
}

/// An element holding whitespace-only character data, and no attribute named
/// `_`, becomes an object with no text field.
pub proof fn whitespace_element_has_no_text(
    name: Seq<char>,
    attributes: Seq<(Seq<char>, Seq<char>)>,
    texts: Seq<Seq<char>>,
)
    requires
        forall|i: int| 0 <= i < texts.len() ==> is_blank(#[trigger] texts[i]),
        forall|j: int| 0 <= j < attributes.len() ==> (#[trigger] attributes[j]).0 != text_key(),
    ensures
        ({
            let evs = seq![EventView::Start(name, attributes)] + texts.map_values(
                |t: Seq<char>| EventView::Text(t),
            ) + seq![EventView::End];
            let f = attr_fields(attributes);
            &&& convert_spec(evs, None) == Ok::<Tree, ErrorView>(
                Tree::Object(seq![(name, Tree::Array(seq![Tree::Object(f)]))]),
            )
            &&& key_index(f, text_key()) == -1
        }),
{
    let evs = seq![EventView::Start(name, attributes)] + texts.map_values(
        |t: Seq<char>| EventView::Text(t),
    ) + seq![EventView::End];
    let f = attr_fields(attributes);
    let root: Scope = (Seq::empty(), Seq::empty());
    let n = texts.len() as int;
    lemma_scan_blank_texts(evs, name, attributes, texts, n);
    assert(evs.take(n + 2) =~= evs);
    assert(evs.drop_last() =~= evs.take(n + 1));
    lemma_key_index_absent(Seq::<(Seq<char>, Tree)>::empty(), name);
    assert(with_top(seq![root], seq![(name, Tree::Array(seq![Tree::Object(f)]))]) =~= seq![
        (Seq::<char>::empty(), seq![(name, Tree::Array(seq![Tree::Object(f)]))]),
    ]);
    lemma_attr_fields_absent(attributes, text_key());
    lemma_key_index_absent(f, text_key());
}

/// The fields `f0` once each of `items` is added, in order, as a child named `tag`.
spec fn gathered(f0: Seq<(Seq<char>, Tree)>, tag: Seq<char>, items: Seq<Tree>) -> Seq<
    (Seq<char>, Tree),
>
    decreases items.len(),
{
    if items.len() == 0 {
        f0
    } else {
        match with_child(gathered(f0, tag, items.drop_last()), tag, items.last()) {
            Some(g) => g,
            None => f0,
        }
    }
}

proof fn lemma_gathered(f0: Seq<(Seq<char>, Tree)>, tag: Seq<char>, items: Seq<Tree>)
    requires
        key_index(f0, tag) == -1,
    ensures
        items.len() > 0 ==> with_child(gathered(f0, tag, items.drop_last()), tag, items.last()) is Some,
        items.len() > 0 ==> key_index(gathered(f0, tag, items), tag) >= 0,
        items.len() > 0 ==> gathered(f0, tag, items)[key_index(gathered(f0, tag, items), tag)].1
            == Tree::Array(items),
    decreases items.len(),
{
    if items.len() > 0 {
        let prev = items.drop_last();
        let f = gathered(f0, tag, prev);
        let c = items.last();
        lemma_gathered(f0, tag, prev);
        lemma_key_index_range(f, tag);
        lemma_key_index_after(f, tag);
        let g = with_child(f, tag, c)->0;
        if prev.len() == 0 {
            assert(f == f0);
            assert(items =~= seq![c]);
            lemma_key_index_is(g, tag, f.len() as int);
        } else {
            let i = key_index(f, tag);
            assert(items =~= prev.push(c));
            assert forall|k: int| i < k < g.len() implies (#[trigger] g[k]).0 != tag by {
                assert(g[k] == f[k]);
            }
            lemma_key_index_is(g, tag, i);
        }
    }
}

proof fn lemma_scan_siblings(
    evs: Seq<EventView>,
    parent: Seq<char>,
    attributes: Seq<(Seq<char>, Seq<char>)>,
    tag: Seq<char>,
    siblings: Seq<Seq<(Seq<char>, Seq<char>)>>,
    items: Seq<Tree>,
    j: int,
)
    requires
        0 <= j <= siblings.len(),
        key_index(attr_fields(attributes), tag) == -1,
        evs == seq![EventView::Start(parent, attributes)] + siblings.map_values(
            |a: Seq<(Seq<char>, Seq<char>)>| EventView::Empty(tag, a),
        ) + seq![EventView::End],
        items == siblings.map_values(
            |a: Seq<(Seq<char>, Seq<char>)>| Tree::Object(attr_fields(a)),
        ),
    ensures
        scan(evs.take(1 + j)) == Scan::Open(
            seq![
                (Seq::<char>::empty(), Seq::<(Seq<char>, Tree)>::empty()),
                (parent, gathered(attr_fields(attributes), tag, items.take(j))),
            ],
        ),
    decreases j,
{
    let root: Scope = (Seq::empty(), Seq::empty());
    let f0 = attr_fields(attributes);
    if j == 0 {
        assert(evs.take(1).drop_last() =~= Seq::<EventView>::empty());
        assert(items.take(0) =~= Seq::<Tree>::empty());
        assert(seq![root].push((parent, f0)) =~= seq![root, (parent, f0)]);
    } else {
        lemma_scan_siblings(evs, parent, attributes, tag, siblings, items, j - 1);
        assert(evs.take(1 + j).drop_last() =~= evs.take(j));
        assert(evs.take(1 + j).last() == EventView::Empty(tag, siblings[j - 1]));
        assert(items.take(j).drop_last() =~= items.take(j - 1));
        assert(items.take(j).last() == items[j - 1]);
        assert(items[j - 1] == Tree::Object(attr_fields(siblings[j - 1])));
        lemma_gathered(f0, tag, items.take(j));
        let g = gathered(f0, tag, items.take(j));
        assert(with_top(seq![root, (parent, gathered(f0, tag, items.take(j - 1)))], g) =~= seq![
            root,
            (parent, g),
        ]);
    }
}

/// Sibling elements that share a name are gathered, in document order, into
/// one array under that name, whose length is their number; a single one still
/// gives a one-item array. Stated for an element `parent` (with no attribute of
/// that name) holding `siblings.len() >= 1` empty elements named `tag`.
pub proof fn siblings_form_array(
    parent: Seq<char>,
    attributes: Seq<(Seq<char>, Seq<char>)>,
    tag: Seq<char>,
    siblings: Seq<Seq<(Seq<char>, Seq<char>)>>,
)
    requires
        siblings.len() >= 1,
        forall|j: int| 0 <= j < attributes.len() ==> (#[trigger] attributes[j]).0 != tag,
    ensures
        ({
            let evs = seq![EventView::Start(parent, attributes)] + siblings.map_values(
                |a: Seq<(Seq<char>, Seq<char>)>| EventView::Empty(tag, a),
            ) + seq![EventView::End];
            let items = siblings.map_values(
                |a: Seq<(Seq<char>, Seq<char>)>| Tree::Object(attr_fields(a)),
            );
            &&& convert_spec(evs, None) is Ok
            &&& convert_spec(evs, None)->Ok_0 is Object
            &&& convert_spec(evs, None)->Ok_0->Object_0.len() == 1
            &&& convert_spec(evs, None)->Ok_0->Object_0[0].0 == parent
            &&& convert_spec(evs, None)->Ok_0->Object_0[0].1 is Array
            &&& ({
                let elems = convert_spec(evs, None)->Ok_0->Object_0[0].1->Array_0;
                &&& elems.len() == 1
                &&& elems[0] is Object
                &&& ({
                    let f = elems[0]->Object_0;
                    &&& key_index(f, tag) >= 0
                    &&& f[key_index(f, tag)].1 == Tree::Array(items)
                    &&& items.len() == siblings.len()
                })
            })
        }),
{
    let evs = seq![EventView::Start(parent, attributes)] + siblings.map_values(
        |a: Seq<(Seq<char>, Seq<char>)>| EventView::Empty(tag, a),
    ) + seq![EventView::End];
    let items = siblings.map_values(
        |a: Seq<(Seq<char>, Seq<char>)>| Tree::Object(attr_fields(a)),
    );
    let f0 = attr_fields(attributes);
    let root: Scope = (Seq::empty(), Seq::empty());
    lemma_attr_fields_absent(attributes, tag);
    lemma_key_index_absent(f0, tag);
    let n = siblings.len() as int;
    lemma_scan_siblings(evs, parent, attributes, tag, siblings, items, n);
    assert(items.take(n) =~= items);
    lemma_gathered(f0, tag, items);
    let f = gathered(f0, tag, items);
    assert(evs.take(n + 2) =~= evs);
    assert(evs.drop_last() =~= evs.take(n + 1));
    lemma_key_index_absent(Seq::<(Seq<char>, Tree)>::empty(), parent);
    assert(with_top(seq![root], seq![(parent, Tree::Array(seq![Tree::Object(f)]))]) =~= seq![
        (Seq::<char>::empty(), seq![(parent, Tree::Array(seq![Tree::Object(f)]))]),
    ]);
}

/// An open element while converting: its name and its fields so far.
struct Frame {
    name: String,
    fields: Vec<(String, Value)>,
}

spec fn frame_view(f: Frame) -> Scope {
    (f.name@, fields_view(f.fields@))
}

spec fn stack_view(s: Seq<Frame>) -> Seq<Scope> {
    s.map_values(|f: Frame| frame_view(f))
}

/// The position of the field named `key`, searching from the end.
fn find_key(fields: &Vec<(String, Value)>, key: &String) -> (r: Option<usize>)
    ensures
        match r {
            Some(i) => i as int == key_index(fields_view(fields@), key@),
            None => key_index(fields_view(fields@), key@) == -1,
        },
        r matches Some(i) ==> i < fields@.len(),
{
    let ghost fv = fields_view(fields@);
    let mut i = fields.len();
    assert(fv.take(i as int) =~= fv);
    while i > 0
        invariant
            i <= fields@.len(),
            fv == fields_view(fields@),
            key_index(fv, key@) == key_index(fv.take(i as int), key@),
        decreases i,
    {
        assert(fv.take(i as int).drop_last() =~= fv.take(i - 1));
        if fields[i - 1].0 == *key {
            return Some(i - 1);
        }
        i = i - 1;
    }
    None
}

/// Sets the field `key` to `v`, replacing it where it is or adding it at the end.
fn set_field(fields: &mut Vec<(String, Value)>, key: String, v: Value)
    ensures
        fields_view(final(fields)@) == with_field(fields_view(old(fields)@), key@, v@),
{
    let ghost fv = fields_view(fields@);
    let ghost kv = key@;
    let ghost vv = v@;
    match find_key(fields, &key) {
        Some(i) => {
            let _ = fields.remove(i);
            fields.insert(i, (key, v));
            assert(fields_view(fields@) =~= fv.update(i as int, (kv, vv)));
        },
        None => {
            fields.push((key, v));
            assert(fields_view(fields@) =~= fv.push((kv, vv)));
        },
    }
}

/// Adds `child` to the array named `name`, creating it when there is none.
/// Fails, changing nothing, when the field of that name is not an array.
fn add_child(fields: &mut Vec<(String, Value)>, name: String, child: Value) -> (ok: bool)
    ensures
        ok == with_child(fields_view(old(fields)@), name@, child@) is Some,
        ok ==> fields_view(final(fields)@) == with_child(
            fields_view(old(fields)@),
            name@,
            child@,
        )->0,
{
    let ghost fv = fields_view(fields@);
    let ghost nv = name@;
    let ghost cv = child@;
    match find_key(fields, &name) {
        None => {
            let mut a: Vec<Value> = Vec::new();
            a.push(child);
            proof {
                lemma_array_view(a);
                assert(items_view(a@) =~= seq![cv]);
            }
            fields.push((name, Value::Array(a)));
            assert(fields_view(fields@) =~= fv.push((nv, Tree::Array(seq![cv]))));
            true
        },
        Some(i) => {
            let (k, old_value) = fields.remove(i);
            proof {
                lemma_key_index_range(fv, nv);
            }
            match old_value {
                Value::Array(mut a) => {
                    proof {
                        lemma_array_view(a);
                    }
                    let ghost before = items_view(a@);
                    a.push(child);
                    proof {
                        lemma_array_view(a);
                        assert(items_view(a@) =~= before.push(cv));
                    }
                    fields.insert(i, (k, Value::Array(a)));
                    assert(fields_view(fields@) =~= fv.update(
                        i as int,
                        (nv, Tree::Array(before.push(cv))),
                    ));
                    true
                },
                other => {
                    proof {
                        if other is Object {
                            lemma_object_view(other->Object_0);
                        }
                    }
                    false
                },
            }
        },
    }
}

/// The fields that the attribute pairs `attrs` give, each a text.
fn attr_fields_of(attrs: &Vec<(String, String)>) -> (r: Vec<(String, Value)>)
    ensures
        fields_view(r@) == attr_fields(attrs_view(attrs@)),
{
    let ghost av = attrs_view(attrs@);
    let mut out: Vec<(String, Value)> = Vec::new();
    let mut i: usize = 0;
    assert(av.take(0) =~= Seq::<(Seq<char>, Seq<char>)>::empty());
    assert(fields_view(out@) =~= Seq::<(Seq<char>, Tree)>::empty());
    while i < attrs.len()
        invariant
            i <= attrs@.len(),
            av == attrs_view(attrs@),
            fields_view(out@) == attr_fields(av.take(i as int)),
        decreases attrs@.len() - i,
    {
        assert(av.take(i + 1).drop_last() =~= av.take(i as int));
        let key = attrs[i].0.clone();
        let text = attrs[i].1.clone();
        set_field(&mut out, key, Value::Text(text));
        i = i + 1;
    }
    assert(av.take(attrs@.len() as int) =~= av);
    out
}

/// Whether `t` holds whitespace only.
fn blank(t: &String) -> (r: bool)
    ensures
        r == is_blank(t@),
{
    let c = chars_of(t);
    let (a, b) = trim_bounds(&c, 0, c.len());
    assert(c@.subrange(0, c@.len() as int) =~= t@);
    a == b
}

/// The plain form of a conversion's outcome.
pub open spec fn outcome_view(r: Result<Value, Error>) -> Result<Tree, ErrorView> {
    match r {
        Ok(v) => Ok(v@),
        Err(e) => Err(e@),
    }
}

/// Converts the markup document `xml` into a value: its markup events, up to
/// its end or its first failure, are converted as `convert` does. Markup the
/// tokenizer rejects fails with `XmlError`, names and texts that are not UTF-8
/// with `ParseStringError`.
pub fn to_json(xml: &str) -> (r: Result<Value, Error>)
    ensures
        outcome_view(r) == convert_spec(markup_events(xml@).0, markup_events(xml@).1),
        r matches Ok(v) ==> well_formed(v@),
{
    let (events, failure) = read_events(xml);
    convert(&events, failure)
}

/// Converts a stream of markup events into a value. The document becomes an
/// object; each element becomes an object holding its attributes as texts,
/// an array per child element name with the children in order, and its last
/// non-blank character data under the key `_`. The stream ends after `events`,
/// or fails there with `failure`.
pub fn convert(events: &Vec<MarkupEvent>, failure: Option<Error>) -> (r: Result<Value, Error>)
    ensures
        convert_spec(events_view(events@), failure_view(failure)) == outcome_view(r),
        r matches Ok(v) ==> well_formed(v@),
{
    let ghost evs = events_view(events@);
    proof {
        converted_keys_are_unique(evs, failure_view(failure));
    }
    let mut stack: Vec<Frame> = Vec::new();
    stack.push(Frame { name: String::new(), fields: Vec::new() });
    let mut i: usize = 0;
    proof {
        assert(evs.take(0) =~= Seq::<EventView>::empty());
        assert(fields_view(stack@[0].fields@) =~= Seq::<(Seq<char>, Tree)>::empty());
        assert(stack_view(stack@) =~= seq![(Seq::<char>::empty(), Seq::<(Seq<char>, Tree)>::empty())]);
    }
    while i < events.len()
        invariant
            i <= events@.len(),
            stack@.len() >= 1,
            evs == events_view(events@),
            scan(evs.take(i as int)) == Scan::Open(stack_view(stack@)),
        decreases events@.len() - i,
    {
        let ghost st = stack_view(stack@);
        proof {
            assert(evs.take(i + 1).drop_last() =~= evs.take(i as int));
            assert(evs[i as int] == events@[i as int]@);
        }
        match &events[i] {
            MarkupEvent::Start { name, attributes } => {
                let fields = attr_fields_of(attributes);
                let frame = Frame { name: name.clone(), fields };
                stack.push(frame);
                assert(stack_view(stack@) =~= st.push(frame_view(frame)));
            },
            MarkupEvent::Empty { name, attributes } => {
                let fields = attr_fields_of(attributes);
                proof {
                    lemma_object_view(fields);
                }
                let mut top = stack.pop().unwrap();
                let ok = add_child(&mut top.fields, name.clone(), Value::Object(fields));
                if !ok {
                    proof {
                        lemma_scan_stays(evs, i + 1);
                    }
                    return Err(Error::InvalidArray);
                }
                stack.push(top);
                assert(stack_view(stack@) =~= with_top(st, fields_view(top.fields@)));
            },
            MarkupEvent::End => {
                let top = stack.pop().unwrap();
                if stack.len() == 0 {
                    proof {
                        lemma_scan_stays(evs, i + 1);
                        lemma_object_view(top.fields);
                        converted_keys_are_unique(evs, failure_view(failure));
                    }
                    return Ok(Value::Object(top.fields));
                }
                let mut parent = stack.pop().unwrap();
                let ghost rest = st.drop_last();
                proof {
                    lemma_object_view(top.fields);
                }
                let ok = add_child(&mut parent.fields, top.name, Value::Object(top.fields));
                if !ok {
                    proof {
                        lemma_scan_stays(evs, i + 1);
                    }
                    return Err(Error::InvalidArray);
                }
                stack.push(parent);
                assert(stack_view(stack@) =~= with_top(rest, fields_view(parent.fields@)));
            },
            MarkupEvent::Text(t) => {
                if !blank(t) {
                    let mut top = stack.pop().unwrap();
                    set_field(&mut top.fields, String::from_str("_"), Value::Text(t.clone()));
                    stack.push(top);
                    assert(stack_view(stack@) =~= with_top(st, fields_view(top.fields@)));
                }
            },
            MarkupEvent::Ignored => {},
        }
        i = i + 1;
    }
    assert(evs.take(events@.len() as int) =~= evs);
    match failure {
        Some(e) => Err(e),
        None => {
            if stack.len() == 1 {
                let root = stack.pop().unwrap();
                proof {
                    lemma_object_view(root.fields);
                }
                Ok(Value::Object(root.fields))
            } else {
                Err(Error::UnexpectedEof)
            }
        },
    }
}

} // verus!
