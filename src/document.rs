use vstd::prelude::*;

use crate::text::views;

verus! {

/// A structured value as far as field extraction reads it: text, a list, an
/// object with named members, or any other scalar.
pub enum Value {
    Text(String),
    Array(Vec<Value>),
    Object(Vec<(String, Value)>),
    Other,
}

/// A document: its top-level members, in order, and its serialized form,
/// which is what searches hand back.
pub struct Document {
    pub members: Vec<(String, Value)>,
    pub payload: String,
}

/// The value of the first member named `f`.
pub open spec fn member(ms: Seq<(String, Value)>, f: Seq<char>) -> Option<Value>
    decreases ms.len(),
{
    if ms.len() == 0 {
        None
    } else if ms[0].0@ == f {
        Some(ms[0].1)
    } else {
        member(ms.drop_first(), f)
    }
}

/// Each text among `vs`, followed by a space.
pub open spec fn texts_of(vs: Seq<Value>) -> Seq<char>
    decreases vs.len(),
{
    if vs.len() == 0 {
        Seq::empty()
    } else {
        texts_of(vs.drop_last()) + match vs.last() {
            Value::Text(s) => s@.push(' '),
            _ => Seq::empty(),
        }
    }
}

/// What one field contributes: a text, or the texts directly inside a list or
/// an object; nothing deeper.
pub open spec fn field_text(v: Option<Value>) -> Seq<char> {
    match v {
        Some(Value::Text(s)) => s@.push(' '),
        Some(Value::Array(els)) => texts_of(els@),
        Some(Value::Object(ms)) => texts_of(ms@.map_values(|m: (String, Value)| m.1)),
        _ => Seq::empty(),
    }
}

/// The searchable text of a document: each configured field's contribution,
/// in the order of the fields.
pub open spec fn extracted(ms: Seq<(String, Value)>, fields: Seq<Seq<char>>) -> Seq<char>
    decreases fields.len(),
{
    if fields.len() == 0 {
        Seq::empty()
    } else {
        extracted(ms, fields.drop_last()) + field_text(member(ms, fields.last()))
    }
}

/// The external identifier of a document: its `_id` member, where that is a text.
pub open spec fn id_of(ms: Seq<(String, Value)>) -> Option<Seq<char>> {
    match member(ms, "_id"@) {
        Some(Value::Text(s)) => Some(s@),
        _ => None,
    }
}

/// The position of the first member named `key`.
pub fn find_member(ms: &Vec<(String, Value)>, key: &String) -> (r: Option<usize>)
    ensures
        match r {
            Some(i) => i < ms@.len() && member(ms@, key@) == Some(ms@[i as int].1),
            None => member(ms@, key@) is None,
        },
{
    let mut i: usize = 0;
    assert(ms@.subrange(0, ms@.len() as int) =~= ms@);
    while i < ms.len()
        invariant
            i <= ms@.len(),
            member(ms@, key@) == member(ms@.subrange(i as int, ms@.len() as int), key@),
        decreases ms.len() - i,
    {
        let ghost rest = ms@.subrange(i as int, ms@.len() as int);
        assert(rest[0] == ms@[i as int]);
        assert(rest.drop_first() =~= ms@.subrange(i + 1, ms@.len() as int));
        if ms[i].0 == *key {
            return Some(i);
        }
        i = i + 1;
    }
    None
}

/// Appends `s` and a space.
fn append_spaced(out: &mut String, s: &String)
    ensures
        final(out)@ == old(out)@ + s@.push(' '),
{
    out.append(s.as_str());
    proof {
        reveal_strlit(" ");
    }
    out.append(" ");
    assert(final(out)@ =~= old(out)@ + s@.push(' '));
}

/// Appends each text among `vs`, followed by a space.
fn append_texts(out: &mut String, vs: &Vec<Value>)
    ensures
        final(out)@ == old(out)@ + texts_of(vs@),
{
    let mut i: usize = 0;
    assert(vs@.subrange(0, 0) =~= Seq::<Value>::empty());
    assert(out@ =~= old(out)@ + texts_of(vs@.subrange(0, 0)));
    while i < vs.len()
        invariant
            i <= vs@.len(),
            out@ == old(out)@ + texts_of(vs@.subrange(0, i as int)),
        decreases vs.len() - i,
    {
        let ghost pre = vs@.subrange(0, i + 1);
        assert(pre.drop_last() =~= vs@.subrange(0, i as int));
        assert(pre.last() == vs@[i as int]);
        let ghost before = out@;
        match &vs[i] {
            Value::Text(s) => {
                append_spaced(out, s);
            },
            _ => {},
        }
        assert(out@ =~= old(out)@ + texts_of(pre));
        i = i + 1;
    }
    assert(vs@.subrange(0, vs@.len() as int) =~= vs@);
}

/// Appends each text among the members' values, followed by a space.
fn append_member_texts(out: &mut String, ms: &Vec<(String, Value)>)
    ensures
        final(out)@ == old(out)@ + texts_of(ms@.map_values(|m: (String, Value)| m.1)),
{
    let ghost vals = ms@.map_values(|m: (String, Value)| m.1);
    let mut i: usize = 0;
    assert(vals.subrange(0, 0) =~= Seq::<Value>::empty());
    assert(out@ =~= old(out)@ + texts_of(vals.subrange(0, 0)));
    while i < ms.len()
        invariant
            i <= ms@.len(),
            vals == ms@.map_values(|m: (String, Value)| m.1),
            out@ == old(out)@ + texts_of(vals.subrange(0, i as int)),
        decreases ms.len() - i,
    {
        let ghost pre = vals.subrange(0, i + 1);
        assert(pre.drop_last() =~= vals.subrange(0, i as int));
        assert(pre.last() == ms@[i as int].1);
        match &ms[i].1 {
            Value::Text(s) => {
                append_spaced(out, s);
            },
            _ => {},
        }
        assert(out@ =~= old(out)@ + texts_of(pre));
        i = i + 1;
    }
    assert(vals.subrange(0, ms@.len() as int) =~= vals);
}

/// Flattens the configured fields of a document into one text: a text field
/// as it is, a list or an object by the texts directly inside it, each
/// followed by a space; other values add nothing.
pub fn extract_fields(obj: &Document, fields: &Vec<String>) -> (r: String)
    ensures
        r@ == extracted(obj.members@, views(fields@)),
{
    let mut out = String::new();
    let mut i: usize = 0;
    while i < fields.len()
        invariant
            i <= fields@.len(),
            out@ == extracted(obj.members@, views(fields@.subrange(0, i as int))),
        decreases fields.len() - i,
    {
        let ghost pre = views(fields@.subrange(0, i + 1));
        assert(pre.drop_last() =~= views(fields@.subrange(0, i as int)));
        assert(pre.last() == fields@[i as int]@);
        let ghost before = out@;
        match find_member(&obj.members, &fields[i]) {
            Some(k) => {
                match &obj.members[k].1 {
                    Value::Text(s) => append_spaced(&mut out, s),
                    Value::Array(els) => append_texts(&mut out, els),
                    Value::Object(ms) => append_member_texts(&mut out, ms),
                    Value::Other => {},
                }
            },
            None => {},
        }
        assert(out@ =~= before + field_text(member(obj.members@, fields@[i as int]@)));
        i = i + 1;
    }
    assert(fields@.subrange(0, fields@.len() as int) =~= fields@);
    out
}

/// The external identifier of a document, where it has one.
pub fn document_id(obj: &Document) -> (r: Option<String>)
    ensures
        match r {
            Some(s) => id_of(obj.members@) == Some(s@),
            None => id_of(obj.members@) is None,
        },
{
    let key = String::from_str("_id");
    match find_member(&obj.members, &key) {
        Some(k) => match &obj.members[k].1 {
            Value::Text(s) => Some(s.clone()),
            _ => None,
        },
        None => None,
    }
}

} // verus!
