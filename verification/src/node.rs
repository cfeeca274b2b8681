//! Tree nodes: one element of the tree, holding exactly one value.

use vstd::prelude::*;

verus! {

use crate::value::{
    Value, ValType, ValueView, value_view, value_wf, default_view, valtype_of, parse_value_text,
};

/// A tree element whose sole content is a `Value`. A node of mapping type
/// owns its children exclusively: the tree is a tree, not a graph.
#[derive(Debug)]
pub struct Node {
    pub value: Value,
}

impl View for Node {
    type V = ValueView;

    open spec fn view(&self) -> ValueView {
        value_view(self.value)
    }
}

impl Node {
    /// Wrap a value in a node.
    pub fn with_value(value: Value) -> (n: Node)
        ensures
            n.value == value,
    {
        Node { value }
    }

    /// A fresh node holding the default value for `valtype`: no payload,
    /// `false`, `0`, `0.0`, the empty string, or an empty mapping.
    pub fn with_type(valtype: &ValType) -> (n: Node)
        ensures
            n@ == default_view(*valtype),
            value_wf(n.value),
    {
        Node::with_value(
            match *valtype {
                ValType::Empty => Value::Empty,
                ValType::Boolean => Value::Boolean(false),
                ValType::Integer => Value::Integer(0),
                ValType::Float => Value::Float("0".to_owned()),
                ValType::String => Value::String(String::new()),
                ValType::Mapping => Value::Mapping(Vec::new()),
            },
        )
    }

    /// The value held by this node.
    pub fn value(&self) -> (v: &Value)
        ensures
            *v == self.value,
    {
        &self.value
    }

    /// The value held by this node, for mutation in place.
    pub fn value_mut(&mut self) -> (v: &mut Value)
        ensures
            *v == old(self).value,
            final(self).value == *final(v),
    {
        &mut self.value
    }

    /// The value held by this node, read for a `read` command.
    pub fn read_value(&self) -> (v: &Value)
        ensures
            *v == self.value,
    {
        self.value()
    }

    /// Parse `s` against this node's current type and replace the value;
    /// the node's type never changes, and a mapping cannot be updated.
    pub fn update_value(&mut self, s: &str) -> (r: Result<(), &'static str>)
        ensures
            match r {
                Ok(_) => parse_value_text(s@, valtype_of(old(self)@)) == Ok::<
                    ValueView,
                    Seq<char>,
                >(final(self)@) && value_wf(final(self).value),
                Err(m) => parse_value_text(s@, valtype_of(old(self)@)) == Err::<
                    ValueView,
                    Seq<char>,
                >(m@) && *final(self) == *old(self),
            },
    {
        match Value::from_str(s, &self.value.valtype()) {
            Ok(v) => {
                self.value = v;
                Ok(())
            },
            Err(m) => Err(m),
        }
    }
}

} // verus!
