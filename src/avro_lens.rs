use vstd::prelude::*;

verus! {

/// One decoded row, or a node inside it, as the extractor and the row filter
/// read it. Kinds of value that the filter never compares (bytes, floats,
/// arrays, maps, enums, fixed) are carried as `Other`.
#[derive(Debug, PartialEq)]
pub enum Value {
    Null,
    Boolean(bool),
    Int(i32),
    Long(i64),
    String(String),
    /// Fields in schema order, each with its name.
    Record(Vec<(String, Value)>),
    /// The index of the selected branch and that branch's value.
    Union(u32, Box<Value>),
    Other,
}

/// The value of the first field of `fields` named `name`.
pub open spec fn field_value(fields: Seq<(String, Value)>, name: Seq<char>) -> Option<Value>
    decreases fields.len(),
{
    if fields.len() == 0 {
        None
    } else if fields[0].0@ == name {
        Some(fields[0].1)
    } else {
        field_value(fields.drop_first(), name)
    }
}

/// The node reached from `node` by one path segment: absent where `node` is
/// no record, has no field of that name, or the field is a union on its null
/// branch; a union on another branch is unwrapped.
pub open spec fn descend(node: Value, name: Seq<char>) -> Option<Value> {
    match node {
        Value::Record(fields) => match field_value(fields@, name) {
            Some(Value::Union(_, b)) => if *b is Null {
                None
            } else {
                Some(*b)
            },
            found => found,
        },
        _ => None,
    }
}

/// The node reached from `node` by following `path`, one segment after another.
pub open spec fn reach(node: Value, path: Seq<Seq<char>>) -> Option<Value>
    decreases path.len(),
{
    if path.len() == 0 {
        Some(node)
    } else {
        match descend(node, path[0]) {
            Some(next) => reach(next, path.drop_first()),
            None => None,
        }
    }
}

/// The path segments as character sequences.
pub open spec fn segments(path: Seq<String>) -> Seq<Seq<char>> {
    path.map_values(|s: String| s@)
}

/// The value behind an optional reference.
pub open spec fn deref_opt(r: Option<&Value>) -> Option<Value> {
    match r {
        Some(v) => Some(*v),
        None => None,
    }
}

/// Following `path` from `graph`: the node it reaches, or `None` where a
/// segment is missing, meets a node that is no record, or meets a null union.
pub fn extract<'a>(graph: &'a Value, path: &[String]) -> (r: Option<&'a Value>)
    ensures
        deref_opt(r) == reach(*graph, segments(path@)),
{
    let ghost p = segments(path@);
    let mut current_node: &Value = graph;
    let mut i: usize = 0;
    proof {
        assert(p.skip(0) =~= p);
    }
    while i < path.len()
        invariant
            p == segments(path@),
            i <= path@.len(),
            reach(*graph, p) == reach(*current_node, p.skip(i as int)),
        decreases path@.len() - i,
    {
        let element_name = &path[i];
        proof {
            assert(p.skip(i as int).drop_first() =~= p.skip(i + 1));
            assert(p.skip(i as int)[0] == element_name@);
        }
        match current_node {
            Value::Record(fields) => {
                let mut j: usize = 0;
                proof {
                    assert(fields@.skip(0) =~= fields@);
                }
                while j < fields.len() && fields[j].0 != *element_name
                    invariant
                        j <= fields@.len(),
                        field_value(fields@, element_name@) == field_value(
                            fields@.skip(j as int),
                            element_name@,
                        ),
                    decreases fields@.len() - j,
                {
                    assert(fields@.skip(j as int).drop_first() =~= fields@.skip(j + 1));
                    j = j + 1;
                }
                if j == fields.len() {
                    return None;
                }
                assert(fields@.skip(j as int)[0] == fields@[j as int]);
                match &fields[j].1 {
                    Value::Union(_, b) => {
                        if let Value::Null = **b {
                            return None;
                        } else {
                            current_node = &**b;
                        }
                    },
                    v => current_node = v,
                }
            },
            _ => return None,
        }
        i = i + 1;
    }
    proof {
        assert(p.skip(i as int).len() == 0);
    }
    Some(current_node)
}

/// Following a path made of two parts is following the first part, then the
/// second from where the first ended; an absent node stays absent.
pub proof fn lemma_reach_concat(node: Value, first: Seq<Seq<char>>, rest: Seq<Seq<char>>)
    ensures
        reach(node, first + rest) == match reach(node, first) {
            Some(n) => reach(n, rest),
            None => None,
        },
    decreases first.len(),
{
    if first.len() == 0 {
        assert(first + rest =~= rest);
    } else {
        assert((first + rest).drop_first() =~= first.drop_first() + rest);
        assert((first + rest)[0] == first[0]);
        if let Some(next) = descend(node, first[0]) {
            lemma_reach_concat(next, first.drop_first(), rest);
        }
    }
}

/// Where the field named by segment `k` of a path is a union on its null
/// branch, the whole path is absent, whatever the later segments are.
pub proof fn lemma_null_union_is_absent(
    node: Value,
    path: Seq<Seq<char>>,
    k: int,
    fields: Vec<(String, Value)>,
    branch: u32,
    inner: Box<Value>,
)
    requires
        0 <= k < path.len(),
        reach(node, path.take(k)) == Some(Value::Record(fields)),
        field_value(fields@, path[k]) == Some(Value::Union(branch, inner)),
        *inner is Null,
    ensures
        reach(node, path) is None,
{
    assert(path =~= path.take(k) + path.skip(k));
    lemma_reach_concat(node, path.take(k), path.skip(k));
    assert(path.skip(k)[0] == path[k]);
}

/// A path whose first segment names no field of the root record is absent.
pub proof fn lemma_missing_first_field_is_absent(fields: Vec<(String, Value)>, path: Seq<Seq<char>>)
    requires
        path.len() > 0,
        field_value(fields@, path[0]) is None,
    ensures
        reach(Value::Record(fields), path) is None,
{
}

/// From a root that is no record, every non-empty path is absent.
pub proof fn lemma_non_record_root_is_absent(node: Value, path: Seq<Seq<char>>)
    requires
        path.len() > 0,
        !(node is Record),
    ensures
        reach(node, path) is None,
{
}

} // verus!
