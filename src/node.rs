use vstd::prelude::*;

verus! {

/// The value model `fastnbt` decodes a document into, relied on only as an
/// opaque payload: the merge never looks inside such a value.
#[verifier::external_type_specification]
#[verifier::external_body]
pub struct ExValue(fastnbt::Value);

/// A node of a decoded document tree.
///
/// The variants that the merge reads or writes are held as plain values;
/// every other kind of value (floats, packed arrays) is carried through
/// unchanged in `Opaque`.
#[derive(Debug, PartialEq)]
pub enum Node {
    Byte(i8),
    Short(i16),
    Int(i32),
    Long(i64),
    Str(String),
    List(Vec<Node>),
    /// A string-keyed mapping, kept as a sequence of key/value pairs.
    Compound(Vec<(String, Node)>),
    Opaque(fastnbt::Value),
}

/// Position of the first key/value pair whose key is `key`, or -1 if there is none.
pub open spec fn key_pos<V>(fields: Seq<(String, V)>, key: Seq<char>) -> int
    decreases fields.len(),
{
    if fields.len() == 0 {
        -1
    } else if fields[0].0@ == key {
        0
    } else {
        let p = key_pos(fields.drop_first(), key);
        if p < 0 {
            -1
        } else {
            p + 1
        }
    }
}

/// The value stored under `key` (its first occurrence), if any.
pub open spec fn field(fields: Seq<(String, Node)>, key: Seq<char>) -> Option<Node> {
    let p = key_pos(fields, key);
    if p < 0 {
        None
    } else {
        Some(fields[p].1)
    }
}

/// `key_pos` is the first index holding `key`.
pub proof fn lemma_key_pos<V>(fields: Seq<(String, V)>, key: Seq<char>)
    ensures
        -1 <= key_pos(fields, key) < fields.len(),
        key_pos(fields, key) >= 0 ==> fields[key_pos(fields, key)].0@ == key,
        forall|j: int| 0 <= j < fields.len() && j < key_pos(fields, key) ==> fields[j].0@ != key,
        key_pos(fields, key) < 0 ==> forall|j: int| 0 <= j < fields.len() ==> fields[j].0@ != key,
    decreases fields.len(),
{
    if fields.len() > 0 && fields[0].0@ != key {
        let rest = fields.drop_first();
        lemma_key_pos(rest, key);
        assert forall|j: int| 0 < j < fields.len() implies fields[j] == rest[j - 1] by {}
    }
}

/// A key sits at `i` when it is there and at no earlier index.
pub proof fn lemma_key_pos_at<V>(fields: Seq<(String, V)>, key: Seq<char>, i: int)
    requires
        0 <= i < fields.len(),
        fields[i].0@ == key,
        forall|j: int| 0 <= j < i ==> fields[j].0@ != key,
    ensures
        key_pos(fields, key) == i,
{
    lemma_key_pos(fields, key);
    let p = key_pos(fields, key);
    if p >= 0 && p < i {
        assert(fields[p].0@ != key);
    }
}

/// Replacing a value leaves the position of every key as it was.
pub proof fn lemma_key_pos_update<V>(fields: Seq<(String, V)>, i: int, v: V, key: Seq<char>)
    requires
        0 <= i < fields.len(),
    ensures
        key_pos(fields.update(i, (fields[i].0, v)), key) == key_pos(fields, key),
    decreases fields.len(),
{
    let u = fields.update(i, (fields[i].0, v));
    if i > 0 && fields[0].0@ != key {
        let rest = fields.drop_first();
        assert(u.drop_first() == rest.update(i - 1, (rest[i - 1].0, v)));
        lemma_key_pos_update(rest, i - 1, v, key);
    } else if i == 0 {
        assert(u.drop_first() == fields.drop_first());
    }
}

/// Finds the index of the first pair whose key is `key`.
pub fn find_key<V>(fields: &Vec<(String, V)>, key: &String) -> (r: Option<usize>)
    ensures
        r matches Some(i) ==> key_pos(fields@, key@) == i as int,
        r is None ==> key_pos(fields@, key@) < 0,
        -1 <= key_pos(fields@, key@) < fields@.len(),
{
    let mut i: usize = 0;
    while i < fields.len()
        invariant
            i <= fields@.len(),
            forall|j: int| 0 <= j < i ==> fields@[j].0@ != key@,
        decreases fields.len() - i,
    {
        if fields[i].0 == *key {
            proof {
                lemma_key_pos(fields@, key@);
                let p = key_pos(fields@, key@);
                assert(fields@[i as int].0@ == key@);
                if p >= 0 && p < i {
                    assert(fields@[p].0@ != key@);
                }
            }
            return Some(i);
        }
        i += 1;
    }
    proof {
        lemma_key_pos(fields@, key@);
    }
    None
}

} // verus!

verus! {

/// The string stored under `key`, when `e` is a compound and that field is a string.
pub open spec fn str_field(e: Node, key: Seq<char>) -> Option<String> {
    match e {
        Node::Compound(f) => match field(f@, key) {
            Some(Node::Str(s)) => Some(s),
            _ => None,
        },
        _ => None,
    }
}

/// The integer stored under `key`, when `e` is a compound and that field is an `Int`.
pub open spec fn int_field(e: Node, key: Seq<char>) -> Option<i32> {
    match e {
        Node::Compound(f) => match field(f@, key) {
            Some(Node::Int(x)) => Some(x),
            _ => None,
        },
        _ => None,
    }
}

/// Reads a string field of a compound node.
pub fn get_str(e: &Node, key: &String) -> (r: Option<String>)
    ensures
        r == str_field(*e, key@),
{
    match e {
        Node::Compound(f) => match find_key(f, key) {
            Some(i) => match &f[i].1 {
                Node::Str(s) => Some(s.clone()),
                _ => None,
            },
            None => None,
        },
        _ => None,
    }
}

/// Tells whether a compound node holds the string `want` under `key`.
pub fn has_str(e: &Node, key: &String, want: &String) -> (r: bool)
    ensures
        r == (str_field(*e, key@) matches Some(s) && s@ == want@),
{
    match e {
        Node::Compound(f) => match find_key(f, key) {
            Some(i) => match &f[i].1 {
                Node::Str(s) => *s == *want,
                _ => false,
            },
            None => false,
        },
        _ => false,
    }
}

/// Reads an `Int` field of a compound node.
pub fn get_int(e: &Node, key: &String) -> (r: Option<i32>)
    ensures
        r == int_field(*e, key@),
{
    match e {
        Node::Compound(f) => match find_key(f, key) {
            Some(i) => match &f[i].1 {
                Node::Int(x) => Some(*x),
                _ => None,
            },
            None => None,
        },
        _ => None,
    }
}

} // verus!
