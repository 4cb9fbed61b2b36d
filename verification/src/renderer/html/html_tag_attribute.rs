use vstd::prelude::*;

verus! {

/// One attribute of a start tag: a name and a value.
#[derive(Debug, Clone, PartialEq, Eq)]
pub struct HtmlTagAttribute {
    name: String,
    value: String,
}

/// Which half of an attribute a character is appended to.
pub enum AttributeField {
    Name,
    Value,
}

impl View for HtmlTagAttribute {
    type V = (Seq<char>, Seq<char>);

    closed spec fn view(&self) -> (Seq<char>, Seq<char>) {
        (self.name@, self.value@)
    }
}

impl DeepView for HtmlTagAttribute {
    type V = (Seq<char>, Seq<char>);

    open spec fn deep_view(&self) -> (Seq<char>, Seq<char>) {
        self@
    }
}

/// The attribute `a` with `c` appended to the half that `field` names.
pub open spec fn attribute_with(a: (Seq<char>, Seq<char>), c: char, field: AttributeField) -> (
    Seq<char>,
    Seq<char>,
) {
    match field {
        AttributeField::Name => (a.0.push(c), a.1),
        AttributeField::Value => (a.0, a.1.push(c)),
    }
}

impl HtmlTagAttribute {
    pub fn new() -> (r: Self)
        ensures
            r@ == (Seq::<char>::empty(), Seq::<char>::empty()),
    {
        Self { name: String::new(), value: String::new() }
    }

    pub fn add_char(&mut self, c: char, property: AttributeField)
        ensures
            final(self)@ == attribute_with(old(self)@, c, property),
    {
        match property {
            AttributeField::Name => self.name.push(c),
            AttributeField::Value => self.value.push(c),
        }
    }

    pub fn name(&self) -> (r: String)
        ensures
            r@ == self@.0,
    {
        self.name.clone()
    }

    pub fn value(&self) -> (r: String)
        ensures
            r@ == self@.1,
    {
        self.value.clone()
    }

    /// A copy of this attribute.
    pub fn duplicate(&self) -> (r: Self)
        ensures
            r@ == self@,
    {
        Self { name: self.name.clone(), value: self.value.clone() }
    }
}

} // verus!
