use vstd::prelude::*;

verus! {

/// A resolved credential value. It has no `Debug` and no `Display`, so
/// `expose` is the only way to the text, and `redacted` is what a log shows.
#[derive(Clone)]
pub struct Secret(String);

impl View for Secret {
    type V = Seq<char>;

    closed spec fn view(&self) -> Seq<char> {
        self.0@
    }
}

impl Secret {
    /// Wraps a value.
    pub fn new(value: String) -> (s: Secret)
        ensures
            s@ == value@,
    {
        Secret(value)
    }

    /// The value itself. Call this only where it is handed to the helper.
    pub fn expose(&self) -> (r: &str)
        ensures
            r@ == self@,
    {
        self.0.as_str()
    }

    /// What a debug print of a secret shows: never the value.
    pub fn redacted(&self) -> (r: String)
        ensures
            r@ == redacted_text(),
    {
        String::from_str("Secret(<redacted>)")
    }

    /// A copy of the secret with the same value.
    pub fn duplicate(&self) -> (r: Secret)
        ensures
            r@ == self@,
    {
        Secret(self.0.clone())
    }
}

/// The fixed text a secret prints as.
pub open spec fn redacted_text() -> Seq<char> {
    "Secret(<redacted>)"@
}

impl PartialEq for Secret {
    fn eq(&self, other: &Secret) -> (r: bool) {
        self.0 == other.0
    }
}

impl vstd::std_specs::cmp::PartialEqSpecImpl for Secret {
    open spec fn obeys_eq_spec() -> bool {
        true
    }

    open spec fn eq_spec(&self, other: &Secret) -> bool {
        self@ == other@
    }
}

impl Eq for Secret {
}

impl From<String> for Secret {
    fn from(value: String) -> (s: Secret)
        ensures
            s@ == value@,
    {
        Secret(value)
    }
}

impl vstd::std_specs::convert::FromSpecImpl<String> for Secret {
    open spec fn obeys_from_spec() -> bool {
        true
    }

    closed spec fn from_spec(v: String) -> Secret {
        Secret(v)
    }
}

impl<'a> From<&'a str> for Secret {
    fn from(value: &'a str) -> (s: Secret)
        ensures
            s@ == value@,
    {
        Secret(String::from_str(value))
    }
}

/// A `String` made from a `&str` is a new value with the same text, and two
/// such values are not equal as values, only as text; so the conversion from
/// `&str` states no value equality; what `from` states is the text.
impl<'a> vstd::std_specs::convert::FromSpecImpl<&'a str> for Secret {
    open spec fn obeys_from_spec() -> bool {
        false
    }

    closed spec fn from_spec(v: &'a str) -> Secret {
        arbitrary()
    }
}

} // verus!
