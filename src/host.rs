use vstd::prelude::*;
use crate::parser::parse::{put, put_member};
use crate::types::{
    find_last, lemma_members_model, lookup, members_model, strings_model, template_model, value_model,
    values_model, ReferenceAsValue, TemplateModel, TemplateValue, Value, ValueModel,
};
use crate::utils::{chars_of, push_chars};
use vstd::string::*;

verus! {

/// Why a host value has no FSON counterpart.
#[derive(Debug, Clone, Copy, PartialEq, Eq, Structural)]
pub enum HostError {
    /// An object key that is not text.
    KeyNotText,
    /// `#id` of a declaration that is not text.
    IdNotText,
    /// `#reference_id` that is not text.
    ReferenceIdNotText,
    /// `#reference_path` that is not an array.
    PathNotArray,
    /// `#reference_path` with an element that is not text.
    PathElementNotText,
    /// `@template_string` that is not an array.
    TemplateNotArray,
}

pub open spec fn id_key() -> Seq<char> {
    seq!['#', 'i', 'd']
}

pub open spec fn value_key() -> Seq<char> {
    seq!['#', 'v', 'a', 'l', 'u', 'e']
}

pub open spec fn reference_id_key() -> Seq<char> {
    seq!['#', 'r', 'e', 'f', 'e', 'r', 'e', 'n', 'c', 'e', '_', 'i', 'd']
}

pub open spec fn reference_path_key() -> Seq<char> {
    seq!['#', 'r', 'e', 'f', 'e', 'r', 'e', 'n', 'c', 'e', '_', 'p', 'a', 't', 'h']
}

pub open spec fn template_key() -> Seq<char> {
    seq!['@', 't', 'e', 'm', 'p', 'l', 'a', 't', 'e', '_', 's', 't', 'r', 'i', 'n', 'g']
}

/// The members in order, a repeated key keeping its first place and last value.
pub open spec fn put_all(m: Seq<(Seq<char>, ValueModel)>) -> Seq<(Seq<char>, ValueModel)>
    decreases m.len(),
{
    if m.len() == 0 {
        Seq::empty()
    } else {
        put(put_all(m.drop_last()), m.last().0, m.last().1)
    }
}

/// The texts of `items`, in order, when every item is text.
pub open spec fn texts_of(items: Seq<ValueModel>) -> Option<Seq<Seq<char>>>
    decreases items.len(),
{
    if items.len() == 0 {
        Some(Seq::empty())
    } else {
        match (texts_of(items.drop_last()), items.last()) {
            (Some(prev), ValueModel::String(s)) => Some(prev.push(s)),
            _ => None,
        }
    }
}

/// The runs of a template written as an array: texts as text, anything else
/// interpolated.
pub open spec fn template_runs(items: Seq<ValueModel>) -> Seq<TemplateModel> {
    items.map_values(
        |x: ValueModel|
            match x {
                ValueModel::String(s) => TemplateModel::Text(s),
                _ => TemplateModel::Interpolation(x),
            },
    )
}

/// The value that a host object with the members `m` stands for. An object
/// whose only keys are `#id` and `#value` is a declaration; one whose only key
/// is `#reference_id`, `#reference_path` or `@template_string` is a reference
/// by id, a reference by path or a template; any other is an object.
pub open spec fn host_object(m: Seq<(Seq<char>, ValueModel)>) -> Result<ValueModel, HostError> {
    let d = put_all(m);
    if d.len() == 2 && lookup(d, id_key()) is Some && lookup(d, value_key()) is Some {
        match lookup(d, id_key())->0 {
            ValueModel::String(id) => Ok(
                ValueModel::ReferenceDeclaration(id, Box::new(lookup(d, value_key())->0)),
            ),
            _ => Err(HostError::IdNotText),
        }
    } else if d.len() == 1 && d[0].0 == reference_id_key() {
        match d[0].1 {
            ValueModel::String(id) => Ok(ValueModel::ReferenceId(id)),
            _ => Err(HostError::ReferenceIdNotText),
        }
    } else if d.len() == 1 && d[0].0 == reference_path_key() {
        match d[0].1 {
            ValueModel::Array(items) => match texts_of(items) {
                Some(p) => Ok(ValueModel::ReferencePath(p)),
                None => Err(HostError::PathElementNotText),
            },
            _ => Err(HostError::PathNotArray),
        }
    } else if d.len() == 1 && d[0].0 == template_key() {
        match d[0].1 {
            ValueModel::Array(items) => Ok(ValueModel::TemplateString(template_runs(items))),
            _ => Err(HostError::TemplateNotArray),
        }
    } else {
        Ok(ValueModel::Object(d))
    }
}

pub open spec fn host_result_model(r: Result<Value, HostError>) -> Result<ValueModel, HostError> {
    match r {
        Ok(v) => Ok(v@),
        Err(e) => Err(e),
    }
}

impl HostError {
    /// A message that describes the error.
    pub fn message(&self) -> String {
        match self {
            HostError::KeyNotText => String::from_str("Key must be string"),
            HostError::IdNotText => String::from_str("Id must be string"),
            HostError::ReferenceIdNotText => String::from_str("Id must be string"),
            HostError::PathNotArray => String::from_str("Path must be array"),
            HostError::PathElementNotText => String::from_str("Path elements must be strings"),
            HostError::TemplateNotArray => String::from_str("Interpolation value must be array"),
        }
    }
}

/// Whether `s` is the text `w`.
fn text_is(s: &String, w: &Vec<char>) -> (r: bool)
    ensures
        r == (s@ == w@),
{
    let cs = chars_of(s.as_str());
    if cs.len() != w.len() {
        return false;
    }
    let mut i: usize = 0;
    while i < w.len()
        invariant
            cs.len() == w.len(),
            cs@ == s@,
            i <= w.len(),
            forall|j: int| 0 <= j < i ==> cs@[j] == #[trigger] w@[j],
        decreases w.len() - i,
    {
        if cs[i] != w[i] {
            proof {
                assert(s@[i as int] != w@[i as int]);
            }
            return false;
        }
        i += 1;
    }
    proof {
        assert(cs@ =~= w@);
    }
    true
}

fn key_string(w: &Vec<char>) -> (r: String)
    ensures
        r@ == w@,
{
    let mut out = String::new();
    push_chars(&mut out, w, 0, w.len());
    proof {
        assert(out@ =~= w@);
    }
    out
}

fn path_of(items: &Vec<Value>) -> (r: Option<Vec<String>>)
    ensures
        match r {
            Some(p) => texts_of(values_model(items@)) == Some(strings_model(p@)),
            None => texts_of(values_model(items@)) is None,
        },
{
    let mut out: Vec<String> = Vec::new();
    let mut i: usize = 0;
    proof {
        assert(items@.subrange(0, 0) =~= Seq::<Value>::empty());
        assert(strings_model(out@) =~= Seq::<Seq<char>>::empty());
    }
    while i < items.len()
        invariant
            i <= items.len(),
            texts_of(values_model(items@.subrange(0, i as int))) == Some(strings_model(out@)),
        decreases items.len() - i,
    {
        let ghost prev = out@;
        let ghost sub = items@.subrange(0, i + 1);
        proof {
            assert(sub.drop_last() =~= items@.subrange(0, i as int));
            assert(values_model(sub).drop_last() =~= values_model(items@.subrange(0, i as int)));
            assert(sub.last() == items@[i as int]);
            assert(values_model(sub).last() == value_model(items@[i as int]));
        }
        match &items[i] {
            Value::String(s) => {
                out.push(s.clone());
                proof {
                    assert(strings_model(out@) =~= strings_model(prev).push(s@));
                }
            },
            _ => {
                proof {
                    lemma_texts_none_extends(items@, i as int + 1);
                }
                return None;
            },
        }
        i += 1;
    }
    proof {
        assert(items@.subrange(0, items.len() as int) =~= items@);
    }
    Some(out)
}

proof fn lemma_texts_none_extends(items: Seq<Value>, k: int)
    requires
        0 <= k <= items.len(),
        texts_of(values_model(items.subrange(0, k))) is None,
    ensures
        texts_of(values_model(items)) is None,
    decreases items.len() - k,
{
    if k < items.len() {
        let sub = items.subrange(0, k + 1);
        assert(sub.drop_last() =~= items.subrange(0, k));
        assert(values_model(sub).drop_last() =~= values_model(items.subrange(0, k)));
        lemma_texts_none_extends(items, k + 1);
    } else {
        assert(items.subrange(0, k) =~= items);
    }
}

fn runs_of(items: &Vec<Value>) -> (r: Vec<TemplateValue>)
    ensures
        template_model(r@) == template_runs(values_model(items@)),
{
    let mut out: Vec<TemplateValue> = Vec::new();
    let mut i: usize = 0;
    proof {
        assert(template_model(out@) =~= template_runs(values_model(items@.subrange(0, 0))));
    }
    while i < items.len()
        invariant
            i <= items.len(),
            template_model(out@) == template_runs(values_model(items@.subrange(0, i as int))),
        decreases items.len() - i,
    {
        let ghost prev = out@;
        let ghost sub = items@.subrange(0, i + 1);
        proof {
            assert(sub.drop_last() =~= items@.subrange(0, i as int));
            assert(values_model(sub).drop_last() =~= values_model(items@.subrange(0, i as int)));
        }
        let run = match &items[i] {
            Value::String(s) => TemplateValue::String(s.clone()),
            x => TemplateValue::Interpolation(x.deep_clone()),
        };
        out.push(run);
        proof {
            assert(out@.drop_last() =~= prev);
            assert(sub.last() == items@[i as int]);
            assert(values_model(sub).last() == value_model(items@[i as int]));
            let vs = values_model(items@.subrange(0, i as int));
            let y = value_model(items@[i as int]);
            assert(values_model(sub) =~= vs.push(y));
            assert(template_model(out@).last() == template_runs(vs.push(y)).last());
            assert(template_runs(vs.push(y)) =~= template_runs(vs).push(
                template_model(out@).last(),
            ));
        }
        i += 1;
    }
    proof {
        assert(items@.subrange(0, items.len() as int) =~= items@);
    }
    out
}

/// The value that a host object with the members `members` stands for (see
/// `host_object`).
pub fn from_host_object(members: Vec<(String, Value)>) -> (r: Result<Value, HostError>)
    ensures
        host_result_model(r) == host_object(members_model(members@)),
{
    let mut d: Vec<(String, Value)> = Vec::new();
    let mut i: usize = 0;
    proof {
        assert(members_model(d@) =~= put_all(members_model(members@.subrange(0, 0))));
    }
    while i < members.len()
        invariant
            i <= members.len(),
            members_model(d@) == put_all(members_model(members@.subrange(0, i as int))),
        decreases members.len() - i,
    {
        proof {
            let sub = members@.subrange(0, i + 1);
            assert(sub.drop_last() =~= members@.subrange(0, i as int));
            assert(members_model(sub).drop_last() =~= members_model(
                members@.subrange(0, i as int),
            ));
        }
        let k = members[i].0.clone();
        let v = members[i].1.deep_clone();
        put_member(&mut d, k, v);
        i += 1;
    }
    proof {
        assert(members@.subrange(0, members.len() as int) =~= members@);
        lemma_members_model(d@);
    }
    let ghost dm = members_model(d@);
    let id = find_last(&d, &key_string(&vec!['#', 'i', 'd']));
    let value = find_last(&d, &key_string(&vec!['#', 'v', 'a', 'l', 'u', 'e']));
    if d.len() == 2 && id.is_some() && value.is_some() {
        match (id, value) {
            (Some(Value::String(s)), Some(v)) => Ok(
                Value::ReferenceDeclaration { id: s, value: Box::new(v) },
            ),
            _ => Err(HostError::IdNotText),
        }
    } else if d.len() == 1 && text_is(
        &d[0].0,
        &vec!['#', 'r', 'e', 'f', 'e', 'r', 'e', 'n', 'c', 'e', '_', 'i', 'd'],
    ) {
        match &d[0].1 {
            Value::String(s) => Ok(Value::Reference(ReferenceAsValue::Id(s.clone()))),
            _ => Err(HostError::ReferenceIdNotText),
        }
    } else if d.len() == 1 && text_is(
        &d[0].0,
        &vec!['#', 'r', 'e', 'f', 'e', 'r', 'e', 'n', 'c', 'e', '_', 'p', 'a', 't', 'h'],
    ) {
        match &d[0].1 {
            Value::Array(items) => match path_of(items) {
                Some(p) => Ok(Value::Reference(ReferenceAsValue::Path(p))),
                None => Err(HostError::PathElementNotText),
            },
            _ => Err(HostError::PathNotArray),
        }
    } else if d.len() == 1 && text_is(
        &d[0].0,
        &vec!['@', 't', 'e', 'm', 'p', 'l', 'a', 't', 'e', '_', 's', 't', 'r', 'i', 'n', 'g'],
    ) {
        match &d[0].1 {
            Value::Array(items) => Ok(Value::TemplateString(runs_of(items))),
            _ => Err(HostError::TemplateNotArray),
        }
    } else {
        Ok(Value::Object(d))
    }
}

} // verus!
