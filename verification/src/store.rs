//! The store: owner of the tree, executing commands by traversing and
//! mutating it.

use vstd::prelude::*;

verus! {

use crate::command::{Command, CommandView};
use crate::node::Node;
use crate::nodespec::NodeSpec;
use crate::response::{Response, ResponseView};
use crate::text::str_eq;
use crate::value::{
    Value, ValType, ValueView, value_wf, entries_view, entries_unique, default_view, valtype_of,
    parse_value_text,
};

/// What resolving a path against a value finds.
pub ghost enum Resolved {
    /// The path leads to this value.
    Found(ValueView),
    /// Some step of the path names a child its mapping does not have.
    Missing,
    /// Some strict prefix of the path leads to a value that is not a
    /// mapping.
    NotMapping,
}

/// Walk `path` down from `v`: each segment in order steps into the child of
/// that name, so the current value must be a mapping that has it. Traversal
/// never creates intermediate nodes.
pub open spec fn resolve(v: ValueView, path: Seq<Seq<char>>) -> Resolved
    decreases path.len(),
{
    if path.len() == 0 {
        Resolved::Found(v)
    } else {
        match v {
            ValueView::Mapping(m) => if m.contains_key(path[0]) {
                resolve(m[path[0]], path.skip(1))
            } else {
                Resolved::Missing
            },
            _ => Resolved::NotMapping,
        }
    }
}

/// `v` with the value at `path` replaced by `nv`; meaningful where
/// `resolve(v, path)` finds a value.
pub open spec fn graft(v: ValueView, path: Seq<Seq<char>>, nv: ValueView) -> ValueView
    decreases path.len(),
{
    if path.len() == 0 {
        nv
    } else {
        match v {
            ValueView::Mapping(m) => ValueView::Mapping(
                m.insert(path[0], graft(m[path[0]], path.skip(1), nv)),
            ),
            _ => v,
        }
    }
}

/// What `create` does: resolve the parent, require it to be a mapping
/// without a child of that name, and hang a fresh node of the default value
/// for the type under it. On any error the tree is unchanged.
pub open spec fn spec_create(
    tree: ValueView,
    parent: Seq<Seq<char>>,
    name: Seq<char>,
    vt: ValType,
) -> (ValueView, ResponseView) {
    match resolve(tree, parent) {
        Resolved::Found(pv) => match pv {
            ValueView::Mapping(m) => if m.contains_key(name) {
                (tree, ResponseView::Error("node already exists"@))
            } else {
                (
                    graft(tree, parent, ValueView::Mapping(m.insert(name, default_view(vt)))),
                    ResponseView::Success,
                )
            },
            _ => (tree, ResponseView::Error("parents exist but is not a map"@)),
        },
        Resolved::Missing => (tree, ResponseView::Error("node does not exist"@)),
        Resolved::NotMapping => (
            tree,
            ResponseView::Error("node does not exist (some parent node does but is not a map)"@),
        ),
    }
}

/// What `read` does: resolve the target and report its value; no mutation.
pub open spec fn spec_read(tree: ValueView, target: Seq<Seq<char>>) -> ResponseView {
    match resolve(tree, target) {
        Resolved::Found(v) => ResponseView::Value(v),
        Resolved::Missing => ResponseView::Error("node does not exist"@),
        Resolved::NotMapping => ResponseView::Error(
            "node does not exist (some parent node does but is not a map)"@,
        ),
    }
}

/// What `update` does: resolve the target, parse the text against the
/// target's current type (an update never changes a node's type), and
/// replace the value in place. On any error the tree is unchanged.
pub open spec fn spec_update(tree: ValueView, target: Seq<Seq<char>>, text: Seq<char>) -> (
    ValueView,
    ResponseView,
) {
    match resolve(tree, target) {
        Resolved::Found(v) => match parse_value_text(text, valtype_of(v)) {
            Ok(nv) => (graft(tree, target, nv), ResponseView::Success),
            Err(m) => (tree, ResponseView::Error(m)),
        },
        Resolved::Missing => (tree, ResponseView::Error("node does not exist"@)),
        Resolved::NotMapping => (
            tree,
            ResponseView::Error("node does not exist (some parent node does but is not a map)"@),
        ),
    }
}

/// The meaning of one command against the tree: the tree afterwards and the
/// response. No error ever leaves a partial mutation behind.
pub open spec fn spec_execute(tree: ValueView, cmd: CommandView) -> (ValueView, ResponseView) {
    match cmd {
        CommandView::Create(parent, name, vt) => spec_create(tree, parent, name, vt),
        CommandView::Read(target) => (tree, spec_read(tree, target)),
        CommandView::Update(target, text) => spec_update(tree, target, text),
    }
}

/// A command that reports an error leaves the tree unchanged: no partial
/// mutation is ever visible.
pub proof fn lemma_error_leaves_tree_unchanged(tree: ValueView, cmd: CommandView)
    ensures
        spec_execute(tree, cmd).1 is Error ==> spec_execute(tree, cmd).0 == tree,
{
}

/// Grafting at a path that resolves is visible at that path.
pub proof fn lemma_resolve_graft(tree: ValueView, path: Seq<Seq<char>>, nv: ValueView)
    requires
        resolve(tree, path) is Found,
    ensures
        resolve(graft(tree, path, nv), path) == Resolved::Found(nv),
    decreases path.len(),
{
    if path.len() > 0 {
        match tree {
            ValueView::Mapping(m) => {
                lemma_resolve_graft(m[path[0]], path.skip(1), nv);
            },
            _ => {},
        }
    }
}

/// Repeating a `create` that succeeded is an error, whatever type the
/// second asks for, and the tree stays as the first left it.
pub proof fn lemma_create_twice(
    tree: ValueView,
    parent: Seq<Seq<char>>,
    name: Seq<char>,
    vt: ValType,
    vt2: ValType,
)
    requires
        spec_create(tree, parent, name, vt).1 is Success,
    ensures
        ({
            let t1 = spec_create(tree, parent, name, vt).0;
            spec_create(t1, parent, name, vt2) == (
                t1,
                ResponseView::Error("node already exists"@),
            )
        }),
{
    let pv = resolve(tree, parent)->Found_0;
    let m = pv->Mapping_0;
    lemma_resolve_graft(tree, parent, ValueView::Mapping(m.insert(name, default_view(vt))));
}

/// A successful `update` is visible to the next `read` of the same path:
/// it returns exactly the value the text parsed to.
pub proof fn lemma_update_then_read(
    tree: ValueView,
    target: Seq<Seq<char>>,
    text: Seq<char>,
    v: ValueView,
    nv: ValueView,
)
    requires
        resolve(tree, target) == Resolved::Found(v),
        parse_value_text(text, valtype_of(v)) == Ok::<ValueView, Seq<char>>(nv),
    ensures
        spec_update(tree, target, text) == (graft(tree, target, nv), ResponseView::Success),
        spec_read(spec_update(tree, target, text).0, target) == ResponseView::Value(nv),
{
    lemma_resolve_graft(tree, target, nv);
}

/// `update` on a node of mapping type always fails, whatever the text: a
/// mapping has no scalar textual form. The tree is unchanged.
pub proof fn lemma_update_mapping_fails(
    tree: ValueView,
    target: Seq<Seq<char>>,
    text: Seq<char>,
    m: Map<Seq<char>, ValueView>,
)
    requires
        resolve(tree, target) == Resolved::Found(ValueView::Mapping(m)),
    ensures
        spec_update(tree, target, text) == (
            tree,
            ResponseView::Error("can't update a map node"@),
        ),
{
}

/// `read` and `update` on a path some step of which names a child that is
/// not there report the missing node and change nothing.
pub proof fn lemma_missing_node(tree: ValueView, target: Seq<Seq<char>>, text: Seq<char>)
    requires
        resolve(tree, target) is Missing,
    ensures
        spec_read(tree, target) == ResponseView::Error("node does not exist"@),
        spec_update(tree, target, text) == (tree, ResponseView::Error("node does not exist"@)),
{
}

/// Two paths that part ways: at some depth both continue, with different
/// segment names — the paths lead into disjoint subtrees.
pub open spec fn diverges(p: Seq<Seq<char>>, q: Seq<Seq<char>>) -> bool {
    exists|k: int| 0 <= k < p.len() && k < q.len() && p[k] != q[k]
}

/// The path a command touches: the parent node of a `create`, the target
/// node of a `read` or an `update`.
pub open spec fn cmd_path(cmd: CommandView) -> Seq<Seq<char>> {
    match cmd {
        CommandView::Create(parent, _, _) => parent,
        CommandView::Read(target) => target,
        CommandView::Update(target, _) => target,
    }
}

/// Grafting along `p` is invisible to every path that diverges from `p`.
pub proof fn lemma_graft_frames(
    tree: ValueView,
    p: Seq<Seq<char>>,
    nv: ValueView,
    q: Seq<Seq<char>>,
)
    requires
        resolve(tree, p) is Found,
        diverges(p, q),
    ensures
        resolve(graft(tree, p, nv), q) == resolve(tree, q),
    decreases p.len(),
{
    let k = choose|k: int| 0 <= k < p.len() && k < q.len() && p[k] != q[k];
    match tree {
        ValueView::Mapping(m) => {
            if p[0] == q[0] {
                assert(k >= 1);
                assert(p.skip(1)[k - 1] == p[k] && q.skip(1)[k - 1] == q[k]);
                lemma_graft_frames(m[p[0]], p.skip(1), nv, q.skip(1));
            }
        },
        _ => {},
    }
}

/// Executing a command is invisible to every path that diverges from the
/// command's own: whatever it did, those nodes resolve as before.
pub proof fn lemma_execute_frames(tree: ValueView, cmd: CommandView, q: Seq<Seq<char>>)
    requires
        diverges(cmd_path(cmd), q),
    ensures
        resolve(spec_execute(tree, cmd).0, q) == resolve(tree, q),
{
    let p = cmd_path(cmd);
    match cmd {
        CommandView::Create(parent, name, vt) => {
            match resolve(tree, parent) {
                Resolved::Found(pv) => match pv {
                    ValueView::Mapping(m) => {
                        if !m.contains_key(name) {
                            lemma_graft_frames(
                                tree,
                                parent,
                                ValueView::Mapping(m.insert(name, default_view(vt))),
                                q,
                            );
                        }
                    },
                    _ => {},
                },
                _ => {},
            }
        },
        CommandView::Read(_) => {},
        CommandView::Update(target, text) => {
            match resolve(tree, target) {
                Resolved::Found(v) => match parse_value_text(text, valtype_of(v)) {
                    Ok(nv) => {
                        lemma_graft_frames(tree, target, nv, q);
                    },
                    Err(_) => {},
                },
                _ => {},
            }
        },
    }
}

/// Grafts along diverging paths commute.
pub proof fn lemma_graft_graft_commute(
    tree: ValueView,
    p1: Seq<Seq<char>>,
    a: ValueView,
    p2: Seq<Seq<char>>,
    b: ValueView,
)
    requires
        resolve(tree, p1) is Found,
        resolve(tree, p2) is Found,
        diverges(p1, p2),
    ensures
        graft(graft(tree, p1, a), p2, b) == graft(graft(tree, p2, b), p1, a),
    decreases p1.len(),
{
    let k = choose|k: int| 0 <= k < p1.len() && k < p2.len() && p1[k] != p2[k];
    match tree {
        ValueView::Mapping(m) => {
            if p1[0] == p2[0] {
                assert(k >= 1);
                assert(p1.skip(1)[k - 1] == p1[k] && p2.skip(1)[k - 1] == p2[k]);
                let child = m[p1[0]];
                let a1 = graft(child, p1.skip(1), a);
                let b1 = graft(child, p2.skip(1), b);
                lemma_graft_graft_commute(child, p1.skip(1), a, p2.skip(1), b);
                assert(m.insert(p1[0], a1).insert(p1[0], graft(a1, p2.skip(1), b)) =~= m.insert(
                    p1[0],
                    graft(a1, p2.skip(1), b),
                ));
                assert(m.insert(p2[0], b1).insert(p2[0], graft(b1, p1.skip(1), a)) =~= m.insert(
                    p2[0],
                    graft(b1, p1.skip(1), a),
                ));
            } else {
                let g1 = graft(m[p1[0]], p1.skip(1), a);
                let g2 = graft(m[p2[0]], p2.skip(1), b);
                assert(m.insert(p1[0], g1)[p2[0]] == m[p2[0]]);
                assert(m.insert(p2[0], g2)[p1[0]] == m[p1[0]]);
                assert(m.insert(p1[0], g1).insert(p2[0], g2) =~= m.insert(p2[0], g2).insert(
                    p1[0],
                    g1,
                ));
            }
        },
        _ => {},
    }
}

/// The value a command grafts onto the tree at its path, where it mutates
/// at all: what `create` hangs under the parent, or what `update` writes.
pub open spec fn cmd_graft_value(tree: ValueView, cmd: CommandView) -> Option<ValueView> {
    match cmd {
        CommandView::Create(parent, name, vt) => match resolve(tree, parent) {
            Resolved::Found(pv) => match pv {
                ValueView::Mapping(m) => if m.contains_key(name) {
                    None
                } else {
                    Some(ValueView::Mapping(m.insert(name, default_view(vt))))
                },
                _ => None,
            },
            _ => None,
        },
        CommandView::Read(_) => None,
        CommandView::Update(target, text) => match resolve(tree, target) {
            Resolved::Found(v) => match parse_value_text(text, valtype_of(v)) {
                Ok(nv) => Some(nv),
                Err(_) => None,
            },
            _ => None,
        },
    }
}

/// A command either leaves the tree unchanged, or grafts its value along
/// its own path, which then resolves.
pub proof fn lemma_execute_graft_shape(tree: ValueView, cmd: CommandView)
    ensures
        match cmd_graft_value(tree, cmd) {
            None => spec_execute(tree, cmd).0 == tree,
            Some(nv) => resolve(tree, cmd_path(cmd)) is Found && spec_execute(tree, cmd).0
                == graft(tree, cmd_path(cmd), nv),
        },
{
}

/// What a command would graft is unaffected by an earlier command whose
/// path diverges from its own.
pub proof fn lemma_graft_value_stable(tree: ValueView, c1: CommandView, c2: CommandView)
    requires
        diverges(cmd_path(c1), cmd_path(c2)),
    ensures
        cmd_graft_value(spec_execute(tree, c1).0, c2) == cmd_graft_value(tree, c2),
{
    lemma_execute_frames(tree, c1, cmd_path(c2));
}

/// Commands whose paths diverge never corrupt each other: each returns the
/// response it would have returned alone, and the tree after both is the
/// same whichever ran first — interleaving whole commands against disjoint
/// subtrees loses nothing.
pub proof fn lemma_disjoint_commands_commute(tree: ValueView, c1: CommandView, c2: CommandView)
    requires
        diverges(cmd_path(c1), cmd_path(c2)),
    ensures
        spec_execute(spec_execute(tree, c1).0, c2).0 == spec_execute(
            spec_execute(tree, c2).0,
            c1,
        ).0,
        spec_execute(spec_execute(tree, c1).0, c2).1 == spec_execute(tree, c2).1,
        spec_execute(spec_execute(tree, c2).0, c1).1 == spec_execute(tree, c1).1,
{
    let p1 = cmd_path(c1);
    let p2 = cmd_path(c2);
    let k = choose|k: int| 0 <= k < p1.len() && k < p2.len() && p1[k] != p2[k];
    assert(diverges(p2, p1)) by {
        assert(0 <= k < p2.len() && k < p1.len() && p2[k] != p1[k]);
    }
    let t1 = spec_execute(tree, c1).0;
    let t2 = spec_execute(tree, c2).0;
    lemma_execute_frames(tree, c1, p2);
    lemma_execute_frames(tree, c2, p1);
    lemma_execute_graft_shape(tree, c1);
    lemma_execute_graft_shape(tree, c2);
    lemma_graft_value_stable(tree, c1, c2);
    lemma_graft_value_stable(tree, c2, c1);
    lemma_execute_graft_shape(t1, c2);
    lemma_execute_graft_shape(t2, c1);
    match (cmd_graft_value(tree, c1), cmd_graft_value(tree, c2)) {
        (Some(n1), Some(n2)) => {
            lemma_graft_graft_commute(tree, p1, n1, p2, n2);
        },
        _ => {},
    }
}

/// A name is in the map written by an entry list exactly where some entry
/// carries it.
pub proof fn lemma_entries_view_contains(es: Seq<(String, Node)>, k: Seq<char>)
    ensures
        entries_view(es).contains_key(k) <==> exists|j: int|
            0 <= j < es.len() && (#[trigger] es[j]).0@ == k,
    decreases es.len(),
{
    if es.len() > 0 {
        lemma_entries_view_contains(es.drop_last(), k);
        assert(forall|j: int| 0 <= j < es.len() - 1 ==> (#[trigger] es.drop_last()[j]) == es[j]);
        if entries_view(es).contains_key(k) {
            if es.last().0@ != k {
                let j = choose|j: int|
                    0 <= j < es.drop_last().len() && (#[trigger] es.drop_last()[j]).0@ == k;
                assert(es[j].0@ == k);
            } else {
                assert(es[es.len() - 1].0@ == k);
            }
        }
        if exists|j: int| 0 <= j < es.len() && (#[trigger] es[j]).0@ == k {
            let j = choose|j: int| 0 <= j < es.len() && (#[trigger] es[j]).0@ == k;
            if j < es.len() - 1 {
                assert(es.drop_last()[j].0@ == k);
                assert(entries_view(es.drop_last()).contains_key(k));
            }
            assert(entries_view(es).contains_key(k));
        }
    }
}

/// With unique names, the entry at `j` gives the value the map carries
/// under its name.
pub proof fn lemma_entries_view_index(es: Seq<(String, Node)>, j: int)
    requires
        entries_unique(es),
        0 <= j < es.len(),
    ensures
        entries_view(es).contains_key(es[j].0@),
        entries_view(es)[es[j].0@] == es[j].1@,
    decreases es.len(),
{
    assert(forall|x: int| 0 <= x < es.len() - 1 ==> (#[trigger] es.drop_last()[x]) == es[x]);
    if j < es.len() - 1 {
        assert(entries_unique(es.drop_last()));
        lemma_entries_view_index(es.drop_last(), j);
        assert(es.last().0@ != es[j].0@);
    }
}

/// Replacing the entry at `j` with one of the same name rewrites the map at
/// that name alone.
pub proof fn lemma_entries_view_update(es: Seq<(String, Node)>, j: int, n: Node)
    requires
        entries_unique(es),
        0 <= j < es.len(),
    ensures
        entries_view(es.update(j, (es[j].0, n))) == entries_view(es).insert(es[j].0@, n@),
    decreases es.len(),
{
    let es2 = es.update(j, (es[j].0, n));
    assert(forall|x: int| 0 <= x < es.len() - 1 ==> (#[trigger] es.drop_last()[x]) == es[x]);
    assert(forall|x: int| 0 <= x < es2.len() - 1 ==> (#[trigger] es2.drop_last()[x]) == es2[x]);
    if j == es.len() - 1 {
        assert(es2.drop_last() =~= es.drop_last());
        assert(es2.last() == (es[j].0, n));
        assert(entries_view(es2) =~= entries_view(es).insert(es[j].0@, n@));
    } else {
        assert(entries_unique(es.drop_last()));
        assert(es2.drop_last() =~= es.drop_last().update(j, (es[j].0, n)));
        lemma_entries_view_update(es.drop_last(), j, n);
        assert(es2.last() == es.last());
        assert(es.last().0@ != es[j].0@);
        assert(entries_view(es2) =~= entries_view(es).insert(es[j].0@, n@));
    }
}

/// Position of the entry named `name`, if any.
fn find_key(es: &Vec<(String, Node)>, name: &str) -> (r: Option<usize>)
    ensures
        match r {
            Some(j) => j < es@.len() && es@[j as int].0@ == name@,
            None => forall|j: int| 0 <= j < es@.len() ==> (#[trigger] es@[j]).0@ != name@,
        },
{
    let mut j: usize = 0;
    while j < es.len()
        invariant
            0 <= j <= es@.len(),
            forall|x: int| 0 <= x < j ==> (#[trigger] es@[x]).0@ != name@,
        decreases es@.len() - j,
    {
        if str_eq(es[j].0.as_str(), name) {
            return Some(j);
        }
        j += 1;
    }
    None
}

/// Resolve a path against the subtree under `n`, from segment `i` on,
/// returning the node it leads to.
fn resolve_node<'a>(n: &'a Node, path: &Vec<String>, i: usize) -> (r: Result<&'a Node, &'static str>)
    requires
        value_wf(n.value),
        i <= path@.len(),
    ensures
        match r {
            Ok(t) => resolve(n@, path.deep_view().skip(i as int)) == Resolved::Found(t@)
                && value_wf(t.value),
            Err(m) => match resolve(n@, path.deep_view().skip(i as int)) {
                Resolved::Found(_) => false,
                Resolved::Missing => m@ == "node does not exist"@,
                Resolved::NotMapping => m@
                    == "node does not exist (some parent node does but is not a map)"@,
            },
        },
    decreases path@.len() - i,
{
    let ghost p = path.deep_view().skip(i as int);
    if i == path.len() {
        Ok(n)
    } else {
        proof {
            assert(p[0] == path@[i as int]@);
            assert(p.skip(1) =~= path.deep_view().skip(i as int + 1));
        }
        match &n.value {
            Value::Mapping(es) => {
                let seg: &String = &path[i];
                match find_key(es, seg.as_str()) {
                    Some(j) => {
                        proof {
                            lemma_entries_view_index(es@, j as int);
                        }
                        resolve_node(&es[j].1, path, i + 1)
                    },
                    None => {
                        proof {
                            lemma_entries_view_contains(es@, p[0]);
                        }
                        Err("node does not exist")
                    },
                }
            },
            _ => Err("node does not exist (some parent node does but is not a map)"),
        }
    }
}

/// Create a node named `name` of type `vt` under the path `path[i..]`
/// below `v`, returning the tree afterwards and the response.
fn create_at(v: Value, path: &Vec<String>, i: usize, name: &String, vt: &ValType) -> (res: (
    Value,
    Response,
))
    requires
        value_wf(v),
        i <= path@.len(),
    ensures
        ({
            let (t, rv) = spec_create(v@, path.deep_view().skip(i as int), name@, *vt);
            res.0@ == t && res.1@ == rv && value_wf(res.0)
        }),
    decreases path@.len() - i,
{
    let ghost p = path.deep_view().skip(i as int);
    if i == path.len() {
        match v {
            Value::Mapping(mut es) => {
                let ghost m = entries_view(es@);
                proof {
                    lemma_entries_view_contains(es@, name@);
                }
                match find_key(&es, name.as_str()) {
                    Some(_) => (Value::Mapping(es), Response::Error("node already exists")),
                    None => {
                        let node = Node::with_type(vt);
                        let cname = name.clone();
                        let ghost old_es = es@;
                        es.push((cname, node));
                        proof {
                            assert(es@.drop_last() =~= old_es);
                            assert(es@.last().0@ == name@ && es@.last().1 == node);
                            assert(entries_view(es@) == m.insert(name@, default_view(*vt)));
                            assert(entries_unique(es@));
                            assert(value_wf(Value::Mapping(es)));
                        }
                        (Value::Mapping(es), Response::Success)
                    },
                }
            },
            other => (other, Response::Error("parents exist but is not a map")),
        }
    } else {
        proof {
            assert(p[0] == path@[i as int]@);
            assert(p.skip(1) =~= path.deep_view().skip(i as int + 1));
        }
        match v {
            Value::Mapping(mut es) => {
                let ghost m = entries_view(es@);
                let seg: &String = &path[i];
                match find_key(&es, seg.as_str()) {
                    None => {
                        proof {
                            lemma_entries_view_contains(es@, p[0]);
                        }
                        (Value::Mapping(es), Response::Error("node does not exist"))
                    },
                    Some(j) => {
                        let ghost old_es = es@;
                        proof {
                            lemma_entries_view_index(es@, j as int);
                        }
                        let pair = es.remove(j);
                        let key = pair.0;
                        let child = pair.1;
                        let (nv, resp) = create_at(child.value, path, i + 1, name, vt);
                        let newnode = Node::with_value(nv);
                        es.insert(j, (key, newnode));
                        proof {
                            assert(newnode == Node { value: newnode.value });
                            assert(es@ =~= old_es.update(j as int, (old_es[j as int].0, newnode)));
                            lemma_entries_view_update(old_es, j as int, newnode);
                            if (spec_create(old_es[j as int].1@, p.skip(1), name@, *vt)).1
                                is Success {
                            } else {
                                assert(m.insert(p[0], old_es[j as int].1@) =~= m);
                            }
                            assert(entries_unique(es@));
                            assert(value_wf(Value::Mapping(es)));
                        }
                        (Value::Mapping(es), resp)
                    },
                }
            },
            other => (
                other,
                Response::Error("node does not exist (some parent node does but is not a map)"),
            ),
        }
    }
}

/// Replace the value at the path `path[i..]` below `v` with the parse of
/// `text` against its current type, returning the tree afterwards and the
/// response.
fn update_at(v: Value, path: &Vec<String>, i: usize, text: &str) -> (res: (Value, Response))
    requires
        value_wf(v),
        i <= path@.len(),
    ensures
        ({
            let (t, rv) = spec_update(v@, path.deep_view().skip(i as int), text@);
            res.0@ == t && res.1@ == rv && value_wf(res.0)
        }),
    decreases path@.len() - i,
{
    let ghost p = path.deep_view().skip(i as int);
    if i == path.len() {
        let vt = v.valtype();
        match Value::from_str(text, &vt) {
            Ok(nv) => (nv, Response::Success),
            Err(m) => (v, Response::Error(m)),
        }
    } else {
        proof {
            assert(p[0] == path@[i as int]@);
            assert(p.skip(1) =~= path.deep_view().skip(i as int + 1));
        }
        match v {
            Value::Mapping(mut es) => {
                let ghost m = entries_view(es@);
                let seg: &String = &path[i];
                match find_key(&es, seg.as_str()) {
                    None => {
                        proof {
                            lemma_entries_view_contains(es@, p[0]);
                        }
                        (Value::Mapping(es), Response::Error("node does not exist"))
                    },
                    Some(j) => {
                        let ghost old_es = es@;
                        proof {
                            lemma_entries_view_index(es@, j as int);
                        }
                        let pair = es.remove(j);
                        let key = pair.0;
                        let child = pair.1;
                        let (nv, resp) = update_at(child.value, path, i + 1, text);
                        let newnode = Node::with_value(nv);
                        es.insert(j, (key, newnode));
                        proof {
                            assert(newnode == Node { value: newnode.value });
                            assert(es@ =~= old_es.update(j as int, (old_es[j as int].0, newnode)));
                            lemma_entries_view_update(old_es, j as int, newnode);
                            if (spec_update(old_es[j as int].1@, p.skip(1), text@)).1 is Success {
                            } else {
                                assert(m.insert(p[0], old_es[j as int].1@) =~= m);
                            }
                            assert(entries_unique(es@));
                            assert(value_wf(Value::Mapping(es)));
                        }
                        (Value::Mapping(es), resp)
                    },
                }
            },
            other => (
                other,
                Response::Error("node does not exist (some parent node does but is not a map)"),
            ),
        }
    }
}

/// The owner of the tree: exactly one root node, of mapping type at
/// construction, living for the process lifetime. Nodes are created only by
/// `Create` and never destroyed; values are replaced in place only by
/// `Update`.
pub struct Store {
    root: Node,
}

impl Store {
    /// Every mapping of the tree has unique child names.
    #[verifier::type_invariant]
    spec fn wf(self) -> bool {
        value_wf(self.root.value)
    }
}

impl View for Store {
    type V = ValueView;

    closed spec fn view(&self) -> ValueView {
        self.root@
    }
}

impl Store {
    /// A store holding one empty mapping at the root.
    pub fn new() -> (s: Store)
        ensures
            s@ == ValueView::Mapping(Map::<Seq<char>, ValueView>::empty()),
    {
        Store { root: Node::with_type(&ValType::Mapping) }
    }

    /// Execute one command against the tree, atomically: the new tree and
    /// the response are exactly what `spec_execute` writes, and on any
    /// error the tree is unchanged.
    pub fn execute(&mut self, cmd: Command) -> (r: Response)
        ensures
            ({
                let (t, rv) = spec_execute(old(self)@, cmd@);
                final(self)@ == t && r@ == rv
            }),
    {
        proof {
            use_type_invariant(&*self);
        }
        match cmd {
            Command::Create(nodespec, name, valtype) => {
                let mut root = Node::with_type(&ValType::Mapping);
                core::mem::swap(&mut root, &mut self.root);
                let value = root.value;
                let (nv, resp) = create_at(value, nodespec.iter(), 0, &name, &valtype);
                self.root = Node::with_value(nv);
                proof {
                    assert(nodespec@.skip(0) =~= nodespec@);
                }
                resp
            },
            Command::Read(nodespec) => {
                proof {
                    assert(nodespec@.skip(0) =~= nodespec@);
                }
                match resolve_node(&self.root, nodespec.iter(), 0) {
                    Ok(node) => Response::Value(node.value.deep_clone()),
                    Err(m) => Response::Error(m),
                }
            },
            Command::Update(nodespec, value) => {
                let mut root = Node::with_type(&ValType::Mapping);
                core::mem::swap(&mut root, &mut self.root);
                let rv = root.value;
                let (nv, resp) = update_at(rv, nodespec.iter(), 0, value.as_str());
                self.root = Node::with_value(nv);
                proof {
                    assert(nodespec@.skip(0) =~= nodespec@);
                }
                resp
            },
        }
    }

    /// Resolve a nodespec against the tree, returning the node it leads to.
    pub fn get_node(&self, nodespec: &NodeSpec) -> (r: Result<&Node, &'static str>)
        ensures
            match r {
                Ok(n) => resolve(self@, nodespec@) == Resolved::Found(n@),
                Err(m) => match resolve(self@, nodespec@) {
                    Resolved::Found(_) => false,
                    Resolved::Missing => m@ == "node does not exist"@,
                    Resolved::NotMapping => m@
                        == "node does not exist (some parent node does but is not a map)"@,
                },
            },
    {
        proof {
            use_type_invariant(&*self);
            assert(nodespec@.skip(0) =~= nodespec@);
        }
        resolve_node(&self.root, nodespec.iter(), 0)
    }
}

} // verus!
