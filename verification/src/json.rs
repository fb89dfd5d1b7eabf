//! Tree-shaped values: the records that snapshots hold.

use crate::strings;
use crate::text;
use serde_json::{from_str, Value as Json};
use vstd::prelude::*;

verus! {

/// A number as it is written, with its value where that is a whole number.
pub struct Number {
    pub integer: Option<i128>,
    pub text: String,
}

/// A value. The fields of an object stand in the order of their names.
pub enum Value {
    Null,
    Bool(bool),
    Number(Number),
    Text(String),
    List(Vec<Value>),
    Object(Vec<(String, Value)>),
}

/// What a value holds.
pub ghost enum Tree {
    Null,
    Bool(bool),
    Number(Option<i128>, Seq<char>),
    Text(Seq<char>),
    List(Seq<Tree>),
    Object(Seq<(Seq<char>, Tree)>),
}

pub open spec fn tree(value: Value) -> Tree
    decreases value,
{
    match value {
        Value::Null => Tree::Null,
        Value::Bool(b) => Tree::Bool(b),
        Value::Number(n) => Tree::Number(n.integer, n.text@),
        Value::Text(s) => Tree::Text(s@),
        Value::List(list) => Tree::List(trees(list@)),
        Value::Object(fields) => Tree::Object(members(fields@)),
    }
}

/// A fraction that is zero, of either sign.
pub open spec fn zero_text(text: Seq<char>) -> bool {
    text == "0.0"@ || text == "-0.0"@
}

fn is_zero_text(text: &str) -> (r: bool)
    ensures
        r == zero_text(text@),
{
    strings::same(text, "0.0") || strings::same(text, "-0.0")
}

/// Two values agree: numbers by value, everything else by what it holds.
pub open spec fn alike(a: Tree, b: Tree) -> bool
    decreases a,
{
    match (a, b) {
        (Tree::Number(m, s), Tree::Number(n, t)) => m == n && (s == t || m is None && zero_text(s)
            && zero_text(t)),
        (Tree::List(x), Tree::List(y)) => x.len() == y.len() && forall|i: int|
            0 <= i < x.len() ==> alike(#[trigger] x[i], y[i]),
        (Tree::Object(x), Tree::Object(y)) => x.len() == y.len() && forall|i: int|
            0 <= i < x.len() ==> (#[trigger] x[i]).0 == y[i].0 && alike(x[i].1, y[i].1),
        _ => a == b,
    }
}

/// A value agrees with itself.
pub proof fn values_agree_with_themselves(t: Tree)
    ensures
        alike(t, t),
    decreases t,
{
    match t {
        Tree::List(x) => {
            assert forall|i: int| 0 <= i < x.len() implies alike(#[trigger] x[i], x[i]) by {
                values_agree_with_themselves(x[i]);
            }
        },
        Tree::Object(x) => {
            assert forall|i: int| 0 <= i < x.len() implies (#[trigger] x[i]).0 == x[i].0 && alike(
                x[i].1,
                x[i].1,
            ) by {
                values_agree_with_themselves(x[i].1);
            }
        },
        _ => {},
    }
}

pub open spec fn trees(list: Seq<Value>) -> Seq<Tree>
    decreases list,
{
    if list.len() == 0 {
        Seq::empty()
    } else {
        trees(list.drop_last()).push(tree(list.last()))
    }
}

pub open spec fn members(fields: Seq<(String, Value)>) -> Seq<(Seq<char>, Tree)>
    decreases fields,
{
    if fields.len() == 0 {
        Seq::empty()
    } else {
        members(fields.drop_last()).push((fields.last().0@, tree(fields.last().1)))
    }
}

pub proof fn tree_at(list: Seq<Value>, k: int)
    requires
        0 <= k < list.len(),
    ensures
        trees(list).len() == list.len(),
        trees(list)[k] == tree(list[k]),
    decreases list.len(),
{
    trees_length(list);
    if k < list.len() - 1 {
        tree_at(list.drop_last(), k);
        trees_length(list.drop_last());
    } else {
        trees_length(list.drop_last());
    }
}

pub proof fn trees_length(list: Seq<Value>)
    ensures
        trees(list).len() == list.len(),
    decreases list.len(),
{
    if list.len() > 0 {
        trees_length(list.drop_last());
    }
}

pub proof fn members_length(fields: Seq<(String, Value)>)
    ensures
        members(fields).len() == fields.len(),
    decreases fields.len(),
{
    if fields.len() > 0 {
        members_length(fields.drop_last());
    }
}

pub proof fn member_at(fields: Seq<(String, Value)>, k: int)
    requires
        0 <= k < fields.len(),
    ensures
        members(fields).len() == fields.len(),
        members(fields)[k] == (fields[k].0@, tree(fields[k].1)),
    decreases fields.len(),
{
    members_length(fields);
    members_length(fields.drop_last());
    if k < fields.len() - 1 {
        member_at(fields.drop_last(), k);
    }
}

/// Tree depth and breadth in one number, for recursion over two trees.
pub open spec fn weight(t: Tree) -> nat
    decreases t,
{
    match t {
        Tree::List(list) => 1 + weights(list),
        Tree::Object(fields) => 1 + member_weights(fields),
        _ => 1,
    }
}

pub open spec fn weights(list: Seq<Tree>) -> nat
    decreases list,
{
    if list.len() == 0 {
        0
    } else {
        weights(list.drop_last()) + 1 + weight(list.last())
    }
}

pub open spec fn member_weights(fields: Seq<(Seq<char>, Tree)>) -> nat
    decreases fields,
{
    if fields.len() == 0 {
        0
    } else {
        member_weights(fields.drop_last()) + 1 + weight(fields.last().1)
    }
}

/// A member weighs less than its object.
pub proof fn member_is_lighter(fields: Seq<(Seq<char>, Tree)>, k: int)
    requires
        0 <= k < fields.len(),
    ensures
        weight(fields[k].1) < member_weights(fields),
        member_weights(fields.skip(k)) == member_weights(fields.skip(k + 1)) + 1 + weight(
            fields[k].1,
        ),
    decreases fields.len(),
{
    if k < fields.len() - 1 {
        member_is_lighter(fields.drop_last(), k);
        assert(fields.skip(k).drop_last() =~= fields.drop_last().skip(k));
        assert(fields.skip(k + 1).drop_last() =~= fields.drop_last().skip(k + 1));
        assert(fields.skip(k).last() == fields.last());
        assert(fields.skip(k + 1).last() == fields.last());
    } else {
        assert(fields.skip(k) =~= seq![fields[k]]);
        assert(fields.skip(k).drop_last() =~= Seq::<(Seq<char>, Tree)>::empty());
        assert(fields.skip(k + 1) =~= Seq::<(Seq<char>, Tree)>::empty());
    }
}

/// The member of an object with a given name; the first, should there be more.
pub open spec fn field(t: Tree, name: Seq<char>) -> Option<Tree> {
    match t {
        Tree::Object(fields) => find(fields, name),
        _ => None,
    }
}

pub open spec fn find(fields: Seq<(Seq<char>, Tree)>, name: Seq<char>) -> Option<Tree>
    decreases fields.len(),
{
    if fields.len() == 0 {
        None
    } else if fields[0].0 == name {
        Some(fields[0].1)
    } else {
        find(fields.skip(1), name)
    }
}

/// A member, or null where there is none.
pub open spec fn field_or_null(t: Tree, name: Seq<char>) -> Tree {
    match field(t, name) {
        Some(v) => v,
        None => Tree::Null,
    }
}

pub open spec fn as_text(t: Option<Tree>) -> Option<Seq<char>> {
    match t {
        Some(Tree::Text(s)) => Some(s),
        _ => None,
    }
}

impl Value {
    pub fn get(&self, name: &str) -> (r: Option<&Value>)
        ensures
            match r {
                Some(v) => field(tree(*self), name@) == Some(tree(*v)),
                None => field(tree(*self), name@) is None,
            },
    {
        match self {
            Value::Object(fields) => {
                let ghost all = members(fields@);
                proof {
                    members_length(fields@);
                    assert(all.skip(0) =~= all);
                }
                let mut k: usize = 0;
                while k < fields.len()
                    invariant
                        k <= fields@.len(),
                        *self == Value::Object(*fields),
                        all == members(fields@),
                        all.len() == fields@.len(),
                        find(all, name@) == find(all.skip(k as int), name@),
                    decreases fields@.len() - k,
                {
                    proof {
                        member_at(fields@, k as int);
                        assert(all.skip(k as int)[0] == all[k as int]);
                        assert(all.skip(k as int).skip(1) =~= all.skip(k + 1));
                    }
                    if strings::same(fields[k].0.as_str(), name) {
                        return Some(&fields[k].1);
                    }
                    k = k + 1;
                }
                None
            },
            _ => None,
        }
    }

    /// The text of a member that is a text.
    pub fn text_of(&self, name: &str) -> (r: Option<String>)
        ensures
            match r {
                Some(s) => as_text(field(tree(*self), name@)) == Some(s@),
                None => as_text(field(tree(*self), name@)) is None,
            },
    {
        match self.get(name) {
            Some(v) => match v {
                Value::Text(s) => Some(strings::copy(s.as_str())),
                _ => None,
            },
            None => None,
        }
    }

    pub fn is_object(&self) -> (r: bool)
        ensures
            r == (tree(*self) is Object),
    {
        match self {
            Value::Object(_) => true,
            _ => false,
        }
    }

    pub fn copy(&self) -> (out: Value)
        ensures
            tree(out) == tree(*self),
        decreases *self,
    {
        match self {
            Value::Null => Value::Null,
            Value::Bool(b) => Value::Bool(*b),
            Value::Number(n) => Value::Number(
                Number { integer: n.integer, text: strings::copy(n.text.as_str()) },
            ),
            Value::Text(s) => Value::Text(strings::copy(s.as_str())),
            Value::List(list) => {
                let mut out: Vec<Value> = Vec::new();
                let mut k: usize = 0;
                assert(list@.take(0) =~= Seq::<Value>::empty());
                assert(out@ =~= Seq::<Value>::empty());
                while k < list.len()
                    invariant
                        k <= list@.len(),
                        *self == Value::List(*list),
                        trees(out@) == trees(list@.take(k as int)),
                    decreases list@.len() - k,
                {
                    assert(decreases_to!(*self => self->List_0));
                    assert(decreases_to!(*list => list@));
                    assert(decreases_to!(list@ => list@[k as int]));
                    let item = list[k].copy();
                    let ghost before = out@;
                    out.push(item);
                    k = k + 1;
                    assert(out@.drop_last() =~= before);
                    assert(list@.take(k as int).drop_last() =~= list@.take(k - 1));
                }
                assert(list@.take(k as int) =~= list@);
                Value::List(out)
            },
            Value::Object(fields) => {
                let mut out: Vec<(String, Value)> = Vec::new();
                let mut k: usize = 0;
                assert(fields@.take(0) =~= Seq::<(String, Value)>::empty());
                assert(out@ =~= Seq::<(String, Value)>::empty());
                while k < fields.len()
                    invariant
                        k <= fields@.len(),
                        *self == Value::Object(*fields),
                        members(out@) == members(fields@.take(k as int)),
                    decreases fields@.len() - k,
                {
                    let name = strings::copy(fields[k].0.as_str());
                    assert(decreases_to!(*self => self->Object_0));
                    assert(decreases_to!(*fields => fields@));
                    assert(decreases_to!(fields@ => fields@[k as int]));
                    assert(decreases_to!(fields@[k as int] => fields@[k as int].1));
                    let item = fields[k].1.copy();
                    let ghost before = out@;
                    out.push((name, item));
                    k = k + 1;
                    assert(out@.drop_last() =~= before);
                    assert(fields@.take(k as int).drop_last() =~= fields@.take(k - 1));
                }
                assert(fields@.take(k as int) =~= fields@);
                Value::Object(out)
            },
        }
    }

    /// Whether two values agree.
    pub fn same(&self, other: &Value) -> (r: bool)
        ensures
            r == alike(tree(*self), tree(*other)),
        decreases *self,
    {
        match (self, other) {
            (Value::Null, Value::Null) => true,
            (Value::Bool(a), Value::Bool(b)) => *a == *b,
            (Value::Number(a), Value::Number(b)) => {
                let integers = match (a.integer, b.integer) {
                    (Some(x), Some(y)) => x == y,
                    (None, None) => true,
                    _ => false,
                };
                integers && (strings::same(a.text.as_str(), b.text.as_str()) || a.integer.is_none()
                    && is_zero_text(a.text.as_str()) && is_zero_text(b.text.as_str()))
            },
            (Value::Text(a), Value::Text(b)) => strings::same(a.as_str(), b.as_str()),
            (Value::List(a), Value::List(b)) => {
                proof {
                    trees_length(a@);
                    trees_length(b@);
                }
                if a.len() != b.len() {
                    return false;
                }
                let mut k: usize = 0;
                while k < a.len()
                    invariant
                        k <= a@.len(),
                        a@.len() == b@.len(),
                        *self == Value::List(*a),
                        *other == Value::List(*b),
                        trees(a@).len() == a@.len(),
                        trees(b@).len() == b@.len(),
                        forall|i: int| 0 <= i < k ==> alike(#[trigger] trees(a@)[i], trees(b@)[i]),
                    decreases a@.len() - k,
                {
                    proof {
                        tree_at(a@, k as int);
                        tree_at(b@, k as int);
                    }
                    if !a[k].same(&b[k]) {
                        return false;
                    }
                    k = k + 1;
                }
                proof {
                    trees_length(a@);
                    trees_length(b@);
                }
                true
            },
            (Value::Object(a), Value::Object(b)) => {
                proof {
                    members_length(a@);
                    members_length(b@);
                }
                if a.len() != b.len() {
                    return false;
                }
                let mut k: usize = 0;
                while k < a.len()
                    invariant
                        k <= a@.len(),
                        a@.len() == b@.len(),
                        *self == Value::Object(*a),
                        *other == Value::Object(*b),
                        members(a@).len() == a@.len(),
                        members(b@).len() == b@.len(),
                        forall|i: int|
                            0 <= i < k ==> (#[trigger] members(a@)[i]).0 == members(b@)[i].0 && alike(
                                members(a@)[i].1,
                                members(b@)[i].1,
                            ),
                    decreases a@.len() - k,
                {
                    proof {
                        member_at(a@, k as int);
                        member_at(b@, k as int);
                    }
                    if !strings::same(a[k].0.as_str(), b[k].0.as_str()) {
                        return false;
                    }
                    if !a[k].1.same(&b[k].1) {
                        return false;
                    }
                    k = k + 1;
                }
                proof {
                    members_length(a@);
                    members_length(b@);
                }
                true
            },
            _ => false,
        }
    }
}

/// What the parser of `serde_json` makes of a text: the value, or its message.
pub uninterp spec fn parsed(text: Seq<char>) -> Result<Tree, Seq<char>>;

/// Calls `serde_json::from_str` for a value of any shape, and `to_string` and
/// itself for the parts of a list or an object. Claimed of it: the value, or the
/// message of the error, is a function of the text. What the text of a value has
/// to look like is not stated.
#[verifier::external_body]
pub(crate) fn parse_json(text: &str) -> (r: Result<Value, String>)
    ensures
        match r {
            Ok(value) => parsed(text@) == Ok::<Tree, Seq<char>>(tree(value)),
            Err(message) => parsed(text@) == Err::<Tree, Seq<char>>(message@),
        },
{
    Ok(match from_str::<Json>(text).map_err(|e| e.to_string())? {
        Json::Null => Value::Null,
        Json::Bool(b) => Value::Bool(b),
        Json::Number(n) => Value::Number(Number { integer: n.as_i128(), text: n.to_string() }),
        Json::String(s) => Value::Text(s),
        Json::Array(l) => Value::List(
            l.iter().map(|v| parse_json(&v.to_string())).collect::<Result<_, _>>()?
        ),
        Json::Object(m) => Value::Object(
            m.into_iter().map(|(k, v)| Ok((k, parse_json(&v.to_string())?))).collect::<Result<_, String>>()?
        )
    })
}

/// A text as JSON writes it.
pub uninterp spec fn quoted(text: Seq<char>) -> Seq<char>;

/// `serde_json::Value::to_string` on a string value. Claimed of it: the result
/// depends on the text alone.
#[verifier::external_body]
fn quote(text: &str) -> (r: String)
    ensures
        r@ == quoted(text@),
{
    serde_json::Value::from(text).to_string()
}

/// A value as JSON, without white space.
pub open spec fn written(t: Tree) -> Seq<char>
    decreases t,
{
    match t {
        Tree::Null => "null"@,
        Tree::Bool(b) => if b {
            "true"@
        } else {
            "false"@
        },
        Tree::Number(_, s) => s,
        Tree::Text(s) => quoted(s),
        Tree::List(list) => "["@ + written_list(list) + "]"@,
        Tree::Object(fields) => "{"@ + written_members(fields) + "}"@,
    }
}

pub open spec fn written_list(list: Seq<Tree>) -> Seq<char>
    decreases list,
{
    if list.len() == 0 {
        Seq::empty()
    } else {
        written_list(list.drop_last()) + (if list.len() > 1 {
            ","@
        } else {
            Seq::empty()
        }) + written(list.last())
    }
}

pub open spec fn written_members(fields: Seq<(Seq<char>, Tree)>) -> Seq<char>
    decreases fields,
{
    if fields.len() == 0 {
        Seq::empty()
    } else {
        written_members(fields.drop_last()) + (if fields.len() > 1 {
            ","@
        } else {
            Seq::empty()
        }) + quoted(fields.last().0) + ":"@ + written(fields.last().1)
    }
}

/// Append a value as JSON.
pub fn write(out: &mut Vec<char>, value: &Value)
    ensures
        final(out)@ == old(out)@ + written(tree(*value)),
    decreases *value,
{
    let ghost start = out@;
    match value {
        Value::Null => text::put(out, "null"),
        Value::Bool(b) => if *b {
            text::put(out, "true")
        } else {
            text::put(out, "false")
        },
        Value::Number(n) => text::put(out, n.text.as_str()),
        Value::Text(s) => {
            let q = quote(s.as_str());
            text::put(out, q.as_str())
        },
        Value::List(list) => {
            text::put(out, "[");
            let ghost head = start + "["@;
            let ghost all = trees(list@);
            proof {
                trees_length(list@);
                assert(all.take(0) =~= Seq::<Tree>::empty());
                assert(out@ =~= head + written_list(all.take(0)));
            }
            let mut k: usize = 0;
            while k < list.len()
                invariant
                    k <= list@.len(),
                    all == trees(list@),
                    all.len() == list@.len(),
                    *value == Value::List(*list),
                    out@ == head + written_list(all.take(k as int)),
                decreases list@.len() - k,
            {
                let ghost before = out@;
                if k > 0 {
                    text::put(out, ",");
                }
                assert(decreases_to!(*value => value->List_0));
                assert(decreases_to!(*list => list@));
                assert(decreases_to!(list@ => list@[k as int]));
                write(out, &list[k]);
                proof {
                    tree_at(list@, k as int);
                    let here = all.take(k + 1);
                    assert(here.drop_last() =~= all.take(k as int));
                    assert(here.last() == tree(list@[k as int]));
                    assert(out@ =~= head + written_list(here));
                }
                k = k + 1;
            }
            assert(all.take(k as int) =~= all);
            text::put(out, "]");
            assert(out@ =~= start + written(tree(*value)));
        },
        Value::Object(fields) => {
            text::put(out, "{");
            let ghost head = start + "{"@;
            let ghost all = members(fields@);
            proof {
                members_length(fields@);
                assert(all.take(0) =~= Seq::<(Seq<char>, Tree)>::empty());
                assert(out@ =~= head + written_members(all.take(0)));
            }
            let mut k: usize = 0;
            while k < fields.len()
                invariant
                    k <= fields@.len(),
                    all == members(fields@),
                    all.len() == fields@.len(),
                    *value == Value::Object(*fields),
                    out@ == head + written_members(all.take(k as int)),
                decreases fields@.len() - k,
            {
                if k > 0 {
                    text::put(out, ",");
                }
                let q = quote(fields[k].0.as_str());
                text::put(out, q.as_str());
                text::put(out, ":");
                assert(decreases_to!(*value => value->Object_0));
                assert(decreases_to!(*fields => fields@));
                assert(decreases_to!(fields@ => fields@[k as int]));
                assert(decreases_to!(fields@[k as int] => fields@[k as int].1));
                write(out, &fields[k].1);
                proof {
                    member_at(fields@, k as int);
                    let here = all.take(k + 1);
                    assert(here.drop_last() =~= all.take(k as int));
                    assert(here.last() == members(fields@)[k as int]);
                    assert(out@ =~= head + written_members(here));
                }
                k = k + 1;
            }
            assert(all.take(k as int) =~= all);
            text::put(out, "}");
            assert(out@ =~= start + written(tree(*value)));
        },
    }
}

} // verus!
