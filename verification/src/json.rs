//! JSON values.

use crate::text::optional_text;
use vstd::prelude::*;

verus! {

/// A JSON value.
///
/// Numbers with a fraction are held by what they stand for, and turned into floating-point
/// numbers when the value is written.
#[derive(Debug)]
pub enum Json {
    Null,
    Bool(bool),
    Int(i64),
    UInt(u64),
    /// A number of nanoseconds, written in milliseconds.
    Millis(u64),
    /// A floating-point number, by its bits.
    Float(u64),
    Text(String),
    List(Vec<Json>),
    /// The entries of an object, in the order in which they are written.
    Object(Vec<(String, Json)>),
}

/// What a [`Json`] says.
#[verifier::ext_equal]
pub enum JsonView {
    Null,
    Bool(bool),
    Int(i64),
    UInt(u64),
    Millis(u64),
    Float(u64),
    Text(Seq<char>),
    List(Seq<JsonView>),
    Object(Seq<(Seq<char>, JsonView)>),
}

impl View for Json {
    type V = JsonView;

    open spec fn view(&self) -> JsonView
        decreases self,
    {
        match self {
            Json::Null => JsonView::Null,
            Json::Bool(b) => JsonView::Bool(*b),
            Json::Int(n) => JsonView::Int(*n),
            Json::UInt(n) => JsonView::UInt(*n),
            Json::Millis(nanos) => JsonView::Millis(*nanos),
            Json::Float(bits) => JsonView::Float(*bits),
            Json::Text(s) => JsonView::Text(s@),
            Json::List(items) => JsonView::List(
                Seq::new(
                    items@.len(),
                    |i: int|
                        if 0 <= i < items@.len() {
                            items@[i].view()
                        } else {
                            JsonView::Null
                        },
                ),
            ),
            Json::Object(entries) => JsonView::Object(
                Seq::new(
                    entries@.len(),
                    |i: int|
                        if 0 <= i < entries@.len() {
                            (entries@[i].0@, entries@[i].1.view())
                        } else {
                            (Seq::empty(), JsonView::Null)
                        },
                ),
            ),
        }
    }
}

/// What the items of a list say.
pub open spec fn items_view(items: Seq<Json>) -> Seq<JsonView> {
    items.map_values(|item: Json| item@)
}

/// What the entries of an object say.
pub open spec fn entries_view(entries: Seq<(String, Json)>) -> Seq<(Seq<char>, JsonView)> {
    entries.map_values(|entry: (String, Json)| (entry.0@, entry.1@))
}

/// A list says what its items say.
pub proof fn lemma_list(items: Vec<Json>)
    ensures
        Json::List(items)@ == JsonView::List(items_view(items@)),
{
    let json = Json::List(items);
    reveal_with_fuel(<Json as View>::view, 2);
    assert(json@->List_0 =~= items_view(items@));
}

/// An object says what its entries say.
pub proof fn lemma_object(entries: Vec<(String, Json)>)
    ensures
        Json::Object(entries)@ == JsonView::Object(entries_view(entries@)),
{
    let json = Json::Object(entries);
    reveal_with_fuel(<Json as View>::view, 2);
    assert(json@->Object_0 =~= entries_view(entries@));
}

/// A text.
pub fn json_text(s: &str) -> (json: Json)
    ensures
        json@ == JsonView::Text(s@),
{
    Json::Text(s.to_string())
}

/// A number that may be missing.
pub open spec fn json_optional_index(n: Option<usize>) -> JsonView {
    match n {
        Some(n) => JsonView::UInt(n as u64),
        None => JsonView::Null,
    }
}

/// A number that may be missing.
pub fn optional_index(n: Option<usize>) -> (json: Json)
    ensures
        json@ == json_optional_index(n),
{
    match n {
        Some(n) => Json::UInt(n as u64),
        None => Json::Null,
    }
}

/// A text that may be missing.
pub open spec fn json_optional_text(s: Option<Seq<char>>) -> JsonView {
    match s {
        Some(s) => JsonView::Text(s),
        None => JsonView::Null,
    }
}

/// A text that may be missing.
pub fn text_or_null(s: &Option<String>) -> (json: Json)
    ensures
        json@ == json_optional_text(optional_text(*s)),
{
    match s {
        Some(s) => json_text(s.as_str()),
        None => Json::Null,
    }
}

/// A list with the given items.
pub fn list(items: Vec<Json>) -> (json: Json)
    ensures
        json@ == JsonView::List(items_view(items@)),
{
    let json: Json = Json::List(items);
    proof {
        lemma_list(items);
    }
    json
}

/// A list without items.
pub fn empty_list() -> (json: Json)
    ensures
        json@ == JsonView::List(Seq::empty()),
{
    let items: Vec<Json> = Vec::new();
    assert(items_view(items@) =~= Seq::empty());
    list(items)
}

/// An object that is being put together.
pub struct ObjectBuilder {
    entries: Vec<(String, Json)>,
}

impl View for ObjectBuilder {
    type V = Seq<(Seq<char>, JsonView)>;

    closed spec fn view(&self) -> Seq<(Seq<char>, JsonView)> {
        entries_view(self.entries@)
    }
}

impl ObjectBuilder {
    /// An object without entries.
    pub fn new() -> (builder: Self)
        ensures
            builder@ == Seq::<(Seq<char>, JsonView)>::empty(),
    {
        let builder: ObjectBuilder = ObjectBuilder { entries: Vec::new() };
        assert(builder@ =~= Seq::<(Seq<char>, JsonView)>::empty());
        builder
    }

    /// Add an entry at the end.
    pub fn entry(&mut self, key: &str, value: Json)
        ensures
            final(self)@ == old(self)@.push((key@, value@)),
    {
        self.entries.push((key.to_string(), value));
        assert(self@ =~= old(self)@.push((key@, value@)));
    }

    /// The object.
    pub fn build(self) -> (json: Json)
        ensures
            json@ == JsonView::Object(self@),
    {
        proof {
            lemma_object(self.entries);
        }
        Json::Object(self.entries)
    }
}

impl Json {
    /// A deep copy.
    pub fn duplicate(&self) -> (json: Json)
        ensures
            json@ == self@,
        decreases self,
    {
        match self {
            Json::Null => Json::Null,
            Json::Bool(b) => Json::Bool(*b),
            Json::Int(n) => Json::Int(*n),
            Json::UInt(n) => Json::UInt(*n),
            Json::Millis(nanos) => Json::Millis(*nanos),
            Json::Float(bits) => Json::Float(*bits),
            Json::Text(s) => Json::Text(s.clone()),
            Json::List(items) => {
                let mut copies: Vec<Json> = Vec::new();
                let mut i: usize = 0;
                while i < items.len()
                    invariant
                        *self matches Json::List(own) && own == *items,
                        i <= items@.len(),
                        items_view(copies@) == items_view(items@.take(i as int)),
                    decreases items@.len() - i,
                {
                    let copy: Json = items[i].duplicate();
                    proof {
                        assert(items_view(items@.take(i + 1)) =~= items_view(
                            items@.take(i as int),
                        ).push(items@[i as int]@));
                        assert(items_view(copies@.push(copy)) =~= items_view(copies@).push(copy@));
                    }
                    copies.push(copy);
                    i = i + 1;
                }
                proof {
                    assert(items@.take(i as int) =~= items@);
                    lemma_list(*items);
                }
                list(copies)
            },
            Json::Object(entries) => {
                let mut builder: ObjectBuilder = ObjectBuilder::new();
                let mut i: usize = 0;
                while i < entries.len()
                    invariant
                        *self matches Json::Object(own) && own == *entries,
                        i <= entries@.len(),
                        builder@ == entries_view(entries@.take(i as int)),
                    decreases entries@.len() - i,
                {
                    let copy: Json = entries[i].1.duplicate();
                    builder.entry(entries[i].0.as_str(), copy);
                    proof {
                        assert(entries_view(entries@.take(i + 1)) =~= entries_view(
                            entries@.take(i as int),
                        ).push((entries@[i as int].0@, entries@[i as int].1@)));
                    }
                    i = i + 1;
                }
                proof {
                    assert(entries@.take(i as int) =~= entries@);
                    lemma_object(*entries);
                }
                builder.build()
            },
        }
    }
}

/// A JSON value says what it holds, in each of its forms.
pub proof fn json_is_viewed_form_by_form(
    b: bool,
    n: i64,
    u: u64,
    s: String,
    items: Vec<Json>,
    entries: Vec<(String, Json)>,
)
    ensures
        Json::Null@ == JsonView::Null,
        Json::Bool(b)@ == JsonView::Bool(b),
        Json::Int(n)@ == JsonView::Int(n),
        Json::UInt(u)@ == JsonView::UInt(u),
        Json::Millis(u)@ == JsonView::Millis(u),
        Json::Float(u)@ == JsonView::Float(u),
        Json::Text(s)@ == JsonView::Text(s@),
        Json::List(items)@ matches JsonView::List(views) && {
            &&& views.len() == items@.len()
            &&& forall|i: int| 0 <= i < views.len() ==> #[trigger] views[i] == items@[i]@
        },
        Json::Object(entries)@ matches JsonView::Object(views) && {
            &&& views.len() == entries@.len()
            &&& forall|i: int|
                0 <= i < views.len() ==> (#[trigger] views[i]).0 == entries@[i].0@ && views[i].1
                    == entries@[i].1@
        },
{
    lemma_list(items);
    lemma_object(entries);
}

} // verus!
