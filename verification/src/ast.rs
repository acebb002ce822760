//! The abstract syntax tree that the Solidity compiler emits, held as plain values.
use vstd::prelude::*;

verus! {

/// Value of an attribute of an AST node.
pub enum AttrValue {
    Null,
    Bool(bool),
    /// A non-negative integer
    Uint(u64),
    Str(String),
    List(Vec<AttrValue>),
    /// Any other value (objects, negative or fractional numbers)
    Other,
}

/// A node of the compiler's AST.
pub struct AstNode {
    pub id: u32,
    pub name: String,
    /// Position in the source, `start:length:file`
    pub src: String,
    pub attributes: Vec<(String, AttrValue)>,
    pub children: Vec<AstNode>,
}

/// The value stored under `key` (the first entry with that key), if any.
pub open spec fn spec_attr(attrs: Seq<(String, AttrValue)>, key: Seq<char>) -> Option<AttrValue>
    decreases attrs.len(),
{
    if attrs.len() == 0 {
        None
    } else if attrs[0].0@ == key {
        Some(attrs[0].1)
    } else {
        spec_attr(attrs.drop_first(), key)
    }
}

/// The value as a `u32`, when it is an integer that fits.
pub open spec fn spec_as_u32(v: Option<AttrValue>) -> Option<u32> {
    match v {
        Some(AttrValue::Uint(n)) => if n <= u32::MAX { Some(n as u32) } else { None },
        _ => None,
    }
}

/// The value as a string, when it is one.
pub open spec fn spec_as_str(v: Option<AttrValue>) -> Option<Seq<char>> {
    match v {
        Some(AttrValue::Str(s)) => Some(s@),
        _ => None,
    }
}

/// The attribute `key` of `attrs` as a `u32`.
pub open spec fn attr_u32_of(attrs: Seq<(String, AttrValue)>, key: Seq<char>) -> Option<u32> {
    spec_as_u32(spec_attr(attrs, key))
}

/// The attribute `key` of `attrs` as a string.
pub open spec fn attr_str_of(attrs: Seq<(String, AttrValue)>, key: Seq<char>) -> Option<Seq<char>> {
    spec_as_str(spec_attr(attrs, key))
}

/// The attribute `key` of `attrs` as a string, or the empty string.
pub open spec fn attr_str_or_empty(attrs: Seq<(String, AttrValue)>, key: Seq<char>) -> Seq<char> {
    match attr_str_of(attrs, key) {
        Some(s) => s,
        None => Seq::empty(),
    }
}

/// Finds the attribute `key`.
pub fn find_attr<'a>(attrs: &'a Vec<(String, AttrValue)>, key: &str) -> (r: Option<&'a AttrValue>)
    ensures
        match r {
            Some(v) => spec_attr(attrs@, key@) == Some(*v),
            None => spec_attr(attrs@, key@) is None,
        },
{
    let mut i: usize = 0;
    assert(attrs@.skip(0) =~= attrs@);
    while i < attrs.len()
        invariant
            i <= attrs.len(),
            spec_attr(attrs@, key@) == spec_attr(attrs@.skip(i as int), key@),
        decreases attrs.len() - i,
    {
        assert(attrs@.skip(i as int).drop_first() =~= attrs@.skip(i + 1));
        if crate::text::str_eq(attrs[i].0.as_str(), key) {
            return Some(&attrs[i].1);
        }
        i = i + 1;
    }
    None
}

/// The attribute `key` as a `u32`.
pub fn attr_u32(attrs: &Vec<(String, AttrValue)>, key: &str) -> (r: Option<u32>)
    ensures
        r == attr_u32_of(attrs@, key@),
{
    match find_attr(attrs, key) {
        Some(AttrValue::Uint(n)) => {
            if *n <= 0xffff_ffffu64 {
                Some(*n as u32)
            } else {
                None
            }
        },
        _ => None,
    }
}

/// The attribute `key` as a string.
pub fn attr_str(attrs: &Vec<(String, AttrValue)>, key: &str) -> (r: Option<String>)
    ensures
        match r {
            Some(s) => attr_str_of(attrs@, key@) == Some(s@),
            None => attr_str_of(attrs@, key@) is None,
        },
{
    match find_attr(attrs, key) {
        Some(AttrValue::Str(s)) => Some(crate::text::copy_string(s)),
        _ => None,
    }
}

/// The attribute `key` as a string, or the empty string when it is absent or
/// not a string.
pub fn attr_str_or_default(attrs: &Vec<(String, AttrValue)>, key: &str) -> (r: String)
    ensures
        r@ == attr_str_or_empty(attrs@, key@),
{
    match attr_str(attrs, key) {
        Some(s) => s,
        None => String::new(),
    }
}

} // verus!
