//! Node specifiers: dotted paths addressing nodes of the tree.

use vstd::prelude::*;

verus! {

use crate::text::{str_eq, split_on, split_char};

/// An ordered sequence of path segment strings identifying a node relative
/// to the store root; the literal path `.` denotes the root itself.
#[derive(Debug, PartialEq)]
pub struct NodeSpec {
    path: Vec<String>,
}

/// The path written by a nodespec string: `.` is the empty path (the root),
/// any other string splits on `.` into segments, left to right. Empty
/// segments from a leading, trailing or doubled dot pass through here
/// unvalidated and surface later as missing nodes.
pub open spec fn nodespec_of_text(s: Seq<char>) -> Seq<Seq<char>> {
    if s == "."@ {
        Seq::empty()
    } else {
        split_on(s, '.')
    }
}

impl View for NodeSpec {
    type V = Seq<Seq<char>>;

    closed spec fn view(&self) -> Seq<Seq<char>> {
        self.path.deep_view()
    }
}

impl NodeSpec {
    /// The path segments, in order.
    pub fn iter(&self) -> (r: &Vec<String>)
        ensures
            r.deep_view() == self@,
    {
        &self.path
    }

    /// Parse a nodespec string. This parser cannot itself fail: every
    /// string names some path.
    pub fn from_str(s: &str) -> (r: Result<NodeSpec, &'static str>)
        ensures
            r matches Ok(ns) && ns@ == nodespec_of_text(s@),
    {
        let path: Vec<String> = if str_eq(s, ".") {
            let empty: Vec<String> = Vec::new();
            proof {
                assert(empty.deep_view() =~= Seq::<Seq<char>>::empty());
            }
            empty
        } else {
            split_char(s, '.')
        };
        Ok(NodeSpec { path })
    }
}

} // verus!
