//! The categories of stack frames.

use crate::json::{items_view, json_text, list, Json, JsonView, ObjectBuilder};
use vstd::prelude::*;
use vstd::std_specs::convert::FromSpec;

verus! {

/// The color of a category in the user interface.
#[derive(Debug, Clone, Copy, PartialEq, Eq, Hash, Structural)]
pub enum CategoryColor {
    Transparent,
    LightBlue,
    Red,
    LightRed,
    Orange,
    Blue,
    Green,
    Purple,
    Yellow,
    Brown,
    Magenta,
    LightGreen,
    Grey,
    DarkGrey,
}

/// A handle for a category of a profile.
#[derive(Debug, Clone, Copy, PartialEq, Eq, PartialOrd, Ord, Hash, Structural)]
pub struct CategoryHandle(pub u16);

impl CategoryHandle {
    /// The category that every profile starts with.
    pub fn other() -> (handle: Self)
        ensures
            handle.0 == 0,
    {
        CategoryHandle(0)
    }
}

/// The place of a subcategory in its category.
#[derive(Debug, Clone, Copy, PartialEq, Eq, PartialOrd, Ord, Hash, Structural)]
pub struct SubcategoryIndex(pub u8);

/// A category and, where one is given, a subcategory of it.
#[derive(Debug, Clone, Copy, PartialEq, Eq, PartialOrd, Ord, Hash, Structural)]
pub struct CategoryPairHandle(pub CategoryHandle, pub Option<SubcategoryIndex>);

impl vstd::std_specs::convert::FromSpecImpl<CategoryHandle> for CategoryPairHandle {
    open spec fn obeys_from_spec() -> bool {
        true
    }

    open spec fn from_spec(category: CategoryHandle) -> Self {
        CategoryPairHandle(category, None)
    }
}

impl From<CategoryHandle> for CategoryPairHandle {
    fn from(category: CategoryHandle) -> (pair: Self) {
        CategoryPairHandle(category, None)
    }
}

/// A category with its subcategories.
#[derive(Debug)]
pub struct Category {
    pub name: String,
    pub color: CategoryColor,
    pub subcategories: Vec<String>,
}

/// What a [`Category`] says.
pub struct CategoryView {
    pub name: Seq<char>,
    pub color: CategoryColor,
    pub subcategories: Seq<Seq<char>>,
}

impl View for Category {
    type V = CategoryView;

    open spec fn view(&self) -> CategoryView {
        CategoryView {
            name: self.name@,
            color: self.color,
            subcategories: self.subcategories@.map_values(|s: String| s@),
        }
    }
}

impl Category {
    /// A category without subcategories.
    pub fn new(name: &str, color: CategoryColor) -> (category: Self)
        ensures
            category@ == (CategoryView {
                name: name@,
                color,
                subcategories: Seq::<Seq<char>>::empty(),
            }),
    {
        let category: Category = Category {
            name: name.to_string(),
            color,
            subcategories: Vec::new(),
        };
        assert(category@.subcategories =~= Seq::<Seq<char>>::empty());
        category
    }

    /// Add a subcategory and return its place. A category has room for 256 of them.
    pub fn add_subcategory(&mut self, name: &str) -> (index: SubcategoryIndex)
        requires
            old(self)@.subcategories.len() <= u8::MAX,
        ensures
            index.0 == old(self)@.subcategories.len(),
            final(self)@ == (CategoryView {
                subcategories: old(self)@.subcategories.push(name@),
                ..old(self)@
            }),
    {
        let index: SubcategoryIndex = SubcategoryIndex(self.subcategories.len() as u8);
        self.subcategories.push(name.to_string());
        assert(self@.subcategories =~= old(self)@.subcategories.push(name@));
        index
    }
}

/// The name of a color in the profile JSON.
pub open spec fn color_name(color: CategoryColor) -> Seq<char> {
    match color {
        CategoryColor::Transparent => "transparent"@,
        CategoryColor::LightBlue => "lightblue"@,
        CategoryColor::Red => "red"@,
        CategoryColor::LightRed => "lightred"@,
        CategoryColor::Orange => "orange"@,
        CategoryColor::Blue => "blue"@,
        CategoryColor::Green => "green"@,
        CategoryColor::Purple => "purple"@,
        CategoryColor::Yellow => "yellow"@,
        CategoryColor::Brown => "brown"@,
        CategoryColor::Magenta => "magenta"@,
        CategoryColor::LightGreen => "lightgreen"@,
        CategoryColor::Grey => "grey"@,
        CategoryColor::DarkGrey => "darkgrey"@,
    }
}

impl CategoryColor {
    /// The name of the color in the profile JSON.
    pub fn name(&self) -> (name: &'static str)
        ensures
            name@ == color_name(*self),
    {
        match self {
            CategoryColor::Transparent => "transparent",
            CategoryColor::LightBlue => "lightblue",
            CategoryColor::Red => "red",
            CategoryColor::LightRed => "lightred",
            CategoryColor::Orange => "orange",
            CategoryColor::Blue => "blue",
            CategoryColor::Green => "green",
            CategoryColor::Purple => "purple",
            CategoryColor::Yellow => "yellow",
            CategoryColor::Brown => "brown",
            CategoryColor::Magenta => "magenta",
            CategoryColor::LightGreen => "lightgreen",
            CategoryColor::Grey => "grey",
            CategoryColor::DarkGrey => "darkgrey",
        }
    }
}

/// The subcategories in the profile JSON: those that were added, then "Other".
pub open spec fn subcategories_json(subcategories: Seq<Seq<char>>) -> JsonView {
    JsonView::List(subcategories.push("Other"@).map_values(|name: Seq<char>| JsonView::Text(name)))
}

/// A category in the profile JSON.
pub open spec fn category_json(category: CategoryView) -> JsonView {
    JsonView::Object(
        seq![
            ("name"@, JsonView::Text(category.name)),
            ("color"@, JsonView::Text(color_name(category.color))),
            ("subcategories"@, subcategories_json(category.subcategories)),
        ],
    )
}

impl Category {
    /// The subcategories in the profile JSON.
    fn subcategories_to_json(&self) -> (json: Json)
        ensures
            json@ == subcategories_json(self@.subcategories),
    {
        let mut items: Vec<Json> = Vec::new();
        let mut i: usize = 0;
        while i < self.subcategories.len()
            invariant
                i <= self.subcategories@.len(),
                items@.len() == i,
                forall|k: int|
                    0 <= k < i ==> (#[trigger] items@[k])@ == JsonView::Text(
                        self.subcategories@[k]@,
                    ),
            decreases self.subcategories@.len() - i,
        {
            items.push(json_text(self.subcategories[i].as_str()));
            i = i + 1;
        }
        items.push(json_text("Other"));
        assert(items_view(items@) =~= subcategories_json(self@.subcategories)->List_0);
        list(items)
    }

    /// The category in the profile JSON.
    pub fn to_json(&self) -> (json: Json)
        ensures
            json@ == category_json(self@),
    {
        let mut object: ObjectBuilder = ObjectBuilder::new();
        object.entry("name", json_text(self.name.as_str()));
        object.entry("color", json_text(self.color.name()));
        object.entry("subcategories", self.subcategories_to_json());
        assert(object@ =~= category_json(self@)->Object_0);
        object.build()
    }
}

/// The JSON of a category holds its name, its color and its subcategories in their order, and
/// behind those "Other".
pub proof fn category_json_holds_the_category(category: CategoryView)
    ensures
        category_json(category) matches JsonView::Object(entries) && {
            &&& entries.len() == 3
            &&& entries[0] == ("name"@, JsonView::Text(category.name))
            &&& entries[1].0 == "color"@
            &&& entries[1].1 == JsonView::Text(color_name(category.color))
            &&& entries[2].0 == "subcategories"@
            &&& entries[2].1 matches JsonView::List(names) && {
                &&& names.len() == category.subcategories.len() + 1
                &&& names.last() == JsonView::Text("Other"@)
                &&& forall|i: int|
                    0 <= i < category.subcategories.len() ==> names[i] == JsonView::Text(
                        #[trigger] category.subcategories[i],
                    )
            }
        },
{
}

/// The view of a category holds its fields, and a category alone is a pair without a subcategory.
pub proof fn category_is_viewed_field_by_field(category: Category, handle: CategoryHandle)
    ensures
        category@.name == category.name@,
        category@.color == category.color,
        category@.subcategories.len() == category.subcategories@.len(),
        forall|i: int|
            0 <= i < category.subcategories@.len() ==> category@.subcategories[i]
                == #[trigger] category.subcategories@[i]@,
        <CategoryPairHandle as FromSpec<CategoryHandle>>::from_spec(handle).0 == handle,
        <CategoryPairHandle as FromSpec<CategoryHandle>>::from_spec(handle).1 is None,
{
}

/// Different colors have different names.
pub proof fn colors_have_names_of_their_own(a: CategoryColor, b: CategoryColor)
    requires
        color_name(a) == color_name(b),
    ensures
        a == b,
{
    reveal_strlit("transparent");
    reveal_strlit("lightblue");
    reveal_strlit("red");
    reveal_strlit("lightred");
    reveal_strlit("orange");
    reveal_strlit("blue");
    reveal_strlit("green");
    reveal_strlit("purple");
    reveal_strlit("yellow");
    reveal_strlit("brown");
    reveal_strlit("magenta");
    reveal_strlit("lightgreen");
    reveal_strlit("grey");
    reveal_strlit("darkgrey");
    let x = color_name(a);
    let y = color_name(b);
    assert(x.len() == y.len());
    assert(x[0] == y[0] && x[1] == y[1] && x[2] == y[2]);
}

/// The color of a category is shown by the word for it, in lower case.
pub proof fn category_json_names_the_color(category: CategoryView)
    ensures
        category_json(category) matches JsonView::Object(entries) && entries[1].1
            matches JsonView::Text(name) && {
            &&& category.color is Transparent ==> name == "transparent"@
            &&& category.color is LightBlue ==> name == "lightblue"@
            &&& category.color is Red ==> name == "red"@
            &&& category.color is LightRed ==> name == "lightred"@
            &&& category.color is Orange ==> name == "orange"@
            &&& category.color is Blue ==> name == "blue"@
            &&& category.color is Green ==> name == "green"@
            &&& category.color is Purple ==> name == "purple"@
            &&& category.color is Yellow ==> name == "yellow"@
            &&& category.color is Brown ==> name == "brown"@
            &&& category.color is Magenta ==> name == "magenta"@
            &&& category.color is LightGreen ==> name == "lightgreen"@
            &&& category.color is Grey ==> name == "grey"@
            &&& category.color is DarkGrey ==> name == "darkgrey"@
        },
{
}

} // verus!
