//! The entries a document yields: a name and a typed value.

use vstd::prelude::*;

verus! {

/// A value of a document.
#[derive(Debug, PartialEq)]
pub enum TomlValue<'a> {
    /// A basic string, borrowed from the document without its quotes.
    String(&'a str),
    /// An integer, whatever radix it was written in.
    Integer(i64),
    /// A float, held as its literal with the underscores taken out: digits,
    /// at most one `.`, and at most one `e` or `E` followed by digits.
    Float(String),
    /// `true` or `false`.
    Bool(bool),
}

/// One `name = value` entry of a document.
#[derive(Debug, PartialEq)]
pub struct TomlPair<'a> {
    name: &'a str,
    value: TomlValue<'a>,
}

/// A value as plain data.
pub enum ValueModel {
    String(Seq<char>),
    Integer(i64),
    Float(Seq<char>),
    Bool(bool),
}

/// An entry as plain data.
pub struct PairModel {
    pub name: Seq<char>,
    pub value: ValueModel,
}

impl<'a> View for TomlValue<'a> {
    type V = ValueModel;

    open spec fn view(&self) -> ValueModel {
        match self {
            TomlValue::String(text) => ValueModel::String(text@),
            TomlValue::Integer(number) => ValueModel::Integer(*number),
            TomlValue::Float(literal) => ValueModel::Float(literal@),
            TomlValue::Bool(flag) => ValueModel::Bool(*flag),
        }
    }
}

impl<'a> View for TomlPair<'a> {
    type V = PairModel;

    closed spec fn view(&self) -> PairModel {
        PairModel { name: self.name@, value: self.value@ }
    }
}

impl<'a> TomlPair<'a> {
    pub fn new(name: &'a str, value: TomlValue<'a>) -> (pair: TomlPair<'a>)
        ensures
            pair@ == (PairModel { name: name@, value: value@ }),
    {
        TomlPair { name, value }
    }

    /// The name of the entry.
    pub fn name(&self) -> (name: &'a str)
        ensures
            name@ == self@.name,
    {
        self.name
    }

    /// The value of the entry.
    pub fn value(&self) -> (value: &TomlValue<'a>)
        ensures
            value@ == self@.value,
    {
        &self.value
    }

    /// Gives up the entry for its name and its value.
    pub fn into_parts(self) -> (parts: (&'a str, TomlValue<'a>))
        ensures
            parts.0@ == self@.name,
            parts.1@ == self@.value,
    {
        (self.name, self.value)
    }
}

} // verus!
