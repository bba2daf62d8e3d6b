use vstd::prelude::*;

verus! {

/// A display key that can be looked up later in a `NameTable`.
///
/// Equality is decided by the underlying text alone, byte for byte: no
/// normalization is applied, so case and whitespace are significant.
#[derive(Debug, Eq, Hash)]
pub struct Name {
    text: String,
}

impl View for Name {
    type V = Seq<char>;

    closed spec fn view(&self) -> Seq<char> {
        self.text@
    }
}

impl Name {
    pub fn new(name: String) -> (r: Name)
        ensures
            r@ == name@,
    {
        Name { text: name }
    }

    pub fn as_str(&self) -> (r: &str)
        ensures
            r@ == self@,
    {
        self.text.as_str()
    }

    /// Whether this name's text equals the given owned text.
    pub fn text_is(&self, other: &String) -> (r: bool)
        ensures
            r == (self@ == other@),
    {
        self.text == *other
    }
}

impl Clone for Name {
    fn clone(&self) -> (r: Name)
        ensures
            r@ == self@,
    {
        Name { text: self.text.clone() }
    }
}

impl PartialEq for Name {
    fn eq(&self, other: &Name) -> bool {
        self.text == other.text
    }
}

impl vstd::std_specs::cmp::PartialEqSpecImpl for Name {
    open spec fn obeys_eq_spec() -> bool {
        true
    }

    open spec fn eq_spec(&self, other: &Name) -> bool {
        self@ == other@
    }
}

} // verus!
