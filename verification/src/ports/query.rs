//! The query language objects are listed by. Reading a query and deciding
//! whether an object meets it are the domain's work; the application asks.
//! What the language answers is a function of what it is asked: the same
//! text always reads the same, and the same object on the same day always
//! meets a query or always does not.

use vstd::prelude::*;

use crate::domain::{Date, Object, ObjectView, texts};

verus! {

/// Text, as the language's answers are stated over it.
pub type Text = Seq<char>;

/// Several texts, in order.
pub type Texts = Seq<Text>;

/// Reads queries and holds objects against them.
pub trait QueryLanguage {
    /// A query as the language read it.
    type Query;

    /// What `text` reads as: a query, or why it does not read.
    spec fn reads_as(&self, text: Text) -> Result<Self::Query, Text>;

    /// The category names the terms of `query` name, in the order they stand.
    spec fn names_in(&self, query: Self::Query) -> Texts;

    /// Whether `object` meets `query` on `today`.
    spec fn meets(&self, query: Self::Query, object: ObjectView, today: Date) -> bool;

    /// Reads `text`; why not, when it does not read.
    fn parse(&self, text: &str) -> (r: Result<Self::Query, String>)
        ensures
            r is Ok <==> self.reads_as(text@) is Ok,
            r matches Ok(q) ==> self.reads_as(text@) == Ok::<Self::Query, Text>(q),
            r matches Err(why) ==> self.reads_as(text@) == Err::<Self::Query, Text>(why@),
    ;

    /// The category names the terms of `query` name, in the order they stand.
    fn categories(&self, query: &Self::Query) -> (r: Vec<String>)
        ensures
            texts(r@) == self.names_in(*query),
    ;

    /// Whether `object` meets `query` on `today`.
    fn admits(&self, query: &Self::Query, object: &Object, today: Date) -> (r: bool)
        ensures
            r == self.meets(*query, object@, today),
    ;
}

} // verus!
