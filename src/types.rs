use vstd::prelude::*;

verus! {

/// A decimal number: `mantissa * 10^exponent / 10^scale`, negated when
/// `negative`.
#[derive(Debug, Clone, Copy, PartialEq, Eq)]
pub struct Decimal {
    pub negative: bool,
    pub mantissa: u64,
    pub scale: u32,
    pub exponent: u32,
}

/// One run of a template string: literal text, or a value to interpolate.
#[derive(Debug, PartialEq)]
pub enum TemplateValue {
    String(String),
    Interpolation(Value),
}

/// A reference: by declared id, or by the chain of object keys from the root.
#[derive(Debug, Clone, PartialEq)]
pub enum ReferenceAsValue {
    Id(String),
    Path(Vec<String>),
}

/// A node of the value graph.
#[derive(Debug, PartialEq)]
pub enum Value {
    Infinity,
    NegativeInfinity,
    Null,
    NaN,
    String(String),
    Number(Decimal),
    Boolean(bool),
    Identifier(String),
    /// Members in order; the keys are unique in a well-formed value.
    Object(Vec<(String, Value)>),
    Array(Vec<Value>),
    TemplateString(Vec<TemplateValue>),
    Reference(ReferenceAsValue),
    ReferenceDeclaration { id: String, value: Box<Value> },
}

/// The mathematical content of a `Value`.
pub enum ValueModel {
    Infinity,
    NegativeInfinity,
    Null,
    NaN,
    String(Seq<char>),
    Number(Decimal),
    Boolean(bool),
    Identifier(Seq<char>),
    Object(Seq<(Seq<char>, ValueModel)>),
    Array(Seq<ValueModel>),
    TemplateString(Seq<TemplateModel>),
    ReferenceId(Seq<char>),
    ReferencePath(Seq<Seq<char>>),
    ReferenceDeclaration(Seq<char>, Box<ValueModel>),
}

/// The mathematical content of a `TemplateValue`.
pub enum TemplateModel {
    Text(Seq<char>),
    Interpolation(ValueModel),
}

pub open spec fn strings_model(s: Seq<String>) -> Seq<Seq<char>> {
    s.map_values(|x: String| x@)
}

pub open spec fn value_model(v: Value) -> ValueModel
    decreases v,
{
    match v {
        Value::Infinity => ValueModel::Infinity,
        Value::NegativeInfinity => ValueModel::NegativeInfinity,
        Value::Null => ValueModel::Null,
        Value::NaN => ValueModel::NaN,
        Value::String(s) => ValueModel::String(s@),
        Value::Number(d) => ValueModel::Number(d),
        Value::Boolean(b) => ValueModel::Boolean(b),
        Value::Identifier(s) => ValueModel::Identifier(s@),
        Value::Object(m) => ValueModel::Object(members_model(m@)),
        Value::Array(a) => ValueModel::Array(values_model(a@)),
        Value::TemplateString(t) => ValueModel::TemplateString(template_model(t@)),
        Value::Reference(ReferenceAsValue::Id(s)) => ValueModel::ReferenceId(s@),
        Value::Reference(ReferenceAsValue::Path(p)) => ValueModel::ReferencePath(strings_model(p@)),
        Value::ReferenceDeclaration { id, value } => ValueModel::ReferenceDeclaration(
            id@,
            Box::new(value_model(*value)),
        ),
    }
}

pub open spec fn values_model(s: Seq<Value>) -> Seq<ValueModel>
    decreases s,
{
    if s.len() == 0 {
        Seq::empty()
    } else {
        values_model(s.drop_last()).push(value_model(s.last()))
    }
}

pub open spec fn members_model(s: Seq<(String, Value)>) -> Seq<(Seq<char>, ValueModel)>
    decreases s,
{
    if s.len() == 0 {
        Seq::empty()
    } else {
        members_model(s.drop_last()).push((s.last().0@, value_model(s.last().1)))
    }
}

pub open spec fn template_model(s: Seq<TemplateValue>) -> Seq<TemplateModel>
    decreases s,
{
    if s.len() == 0 {
        Seq::empty()
    } else {
        template_model(s.drop_last()).push(
            match s.last() {
                TemplateValue::String(t) => TemplateModel::Text(t@),
                TemplateValue::Interpolation(v) => TemplateModel::Interpolation(value_model(v)),
            },
        )
    }
}

impl View for Value {
    type V = ValueModel;

    open spec fn view(&self) -> ValueModel {
        value_model(*self)
    }
}

pub proof fn lemma_members_model(m: Seq<(String, Value)>)
    ensures
        members_model(m).len() == m.len(),
        forall|i: int|
            0 <= i < m.len() ==> #[trigger] members_model(m)[i] == (m[i].0@, value_model(m[i].1)),
    decreases m.len(),
{
    if m.len() > 0 {
        lemma_members_model(m.drop_last());
        assert forall|i: int| 0 <= i < m.len() implies #[trigger] members_model(m)[i] == (
            m[i].0@,
            value_model(m[i].1),
        ) by {
            if i < m.len() - 1 {
                assert(m.drop_last()[i] == m[i]);
            }
        }
    }
}

/// The value of the last entry under key `k`, if any.
pub open spec fn lookup(entries: Seq<(Seq<char>, ValueModel)>, k: Seq<char>) -> Option<ValueModel>
    decreases entries.len(),
{
    if entries.len() == 0 {
        None
    } else if entries.last().0 == k {
        Some(entries.last().1)
    } else {
        lookup(entries.drop_last(), k)
    }
}

pub open spec fn option_model(o: Option<Value>) -> Option<ValueModel> {
    match o {
        Some(v) => Some(v@),
        None => None,
    }
}

/// The values that references resolve to: by declared id, and by path. A later
/// entry under a key shadows an earlier one.
pub struct ReferencesManager {
    pub refs: Vec<(String, Value)>,
    pub ref_paths: Vec<(String, Value)>,
}

/// Returns the value of the last entry under `k`.
pub(crate) fn find_last(entries: &Vec<(String, Value)>, k: &String) -> (r: Option<Value>)
    ensures
        option_model(r) == lookup(members_model(entries@), k@),
{
    let mut j: usize = entries.len();
    proof {
        assert(entries@.subrange(0, j as int) =~= entries@);
    }
    while j > 0
        invariant
            j <= entries.len(),
            lookup(members_model(entries@), k@) == lookup(
                members_model(entries@.subrange(0, j as int)),
                k@,
            ),
        decreases j,
    {
        let ghost sub = entries@.subrange(0, j as int);
        proof {
            assert(sub.drop_last() =~= entries@.subrange(0, j - 1));
            assert(sub.last() == entries@[j - 1]);
            assert(members_model(sub).drop_last() =~= members_model(entries@.subrange(0, j - 1)));
            assert(members_model(sub).last() == (entries@[j - 1].0@, value_model(entries@[j - 1].1)));
        }
        if entries[j - 1].0 == *k {
            return Some(entries[j - 1].1.deep_clone());
        }
        j -= 1;
    }
    None
}

impl ReferencesManager {
    pub open spec fn refs_model(&self) -> Seq<(Seq<char>, ValueModel)> {
        members_model(self.refs@)
    }

    pub open spec fn paths_model(&self) -> Seq<(Seq<char>, ValueModel)> {
        members_model(self.ref_paths@)
    }

    /// A manager with no entries.
    pub fn new() -> (r: ReferencesManager)
        ensures
            r.refs@.len() == 0,
            r.ref_paths@.len() == 0,
    {
        ReferencesManager { refs: Vec::new(), ref_paths: Vec::new() }
    }

    /// The value registered under the path `path` (`/seg/seg/...`).
    pub fn get_by_path(&self, path: String) -> (r: Option<Value>)
        ensures
            option_model(r) == lookup(self.paths_model(), path@),
    {
        find_last(&self.ref_paths, &path)
    }

    /// The value declared under the id `id`.
    pub fn get_by_id(&self, id: String) -> (r: Option<Value>)
        ensures
            option_model(r) == lookup(self.refs_model(), id@),
    {
        find_last(&self.refs, &id)
    }
}

impl Value {
    /// A copy of this value, node for node.
    pub fn deep_clone(&self) -> (r: Value)
        ensures
            r@ == self@,
        decreases *self,
    {
        match self {
            Value::Infinity => Value::Infinity,
            Value::NegativeInfinity => Value::NegativeInfinity,
            Value::Null => Value::Null,
            Value::NaN => Value::NaN,
            Value::String(s) => Value::String(s.clone()),
            Value::Number(d) => Value::Number(*d),
            Value::Boolean(b) => Value::Boolean(*b),
            Value::Identifier(s) => Value::Identifier(s.clone()),
            Value::Object(m) => {
                let mut r: Vec<(String, Value)> = Vec::new();
                let mut i: usize = 0;
                while i < m.len()
                    invariant
                        i <= m.len(),
                        members_model(r@) == members_model(m@.subrange(0, i as int)),
                        *self == Value::Object(*m),
                    decreases m.len() - i,
                {
                    let k = m[i].0.clone();
                    proof {
                        vstd::std_specs::vec::axiom_vec_index_decreases(*m, i as int);
                        assert(decreases_to!(*self => (*self)->Object_0));
                        assert(decreases_to!(*m => m[i as int]));
                        assert(decreases_to!(m[i as int] => m[i as int].1));
                    }
                    let v = m[i].1.deep_clone();
                    proof {
                        assert(r@.push((k, v)).drop_last() =~= r@);
                        assert(m@.subrange(0, i + 1).drop_last() =~= m@.subrange(0, i as int));
                    }
                    r.push((k, v));
                    i += 1;
                }
                proof {
                    assert(m@.subrange(0, m.len() as int) =~= m@);
                }
                Value::Object(r)
            },
            Value::Array(a) => {
                let mut r: Vec<Value> = Vec::new();
                let mut i: usize = 0;
                while i < a.len()
                    invariant
                        i <= a.len(),
                        values_model(r@) == values_model(a@.subrange(0, i as int)),
                        *self == Value::Array(*a),
                    decreases a.len() - i,
                {
                    proof {
                        vstd::std_specs::vec::axiom_vec_index_decreases(*a, i as int);
                        assert(decreases_to!(*self => (*self)->Array_0));
                        assert(decreases_to!(*a => a[i as int]));
                    }
                    let v = a[i].deep_clone();
                    proof {
                        assert(r@.push(v).drop_last() =~= r@);
                        assert(a@.subrange(0, i + 1).drop_last() =~= a@.subrange(0, i as int));
                    }
                    r.push(v);
                    i += 1;
                }
                proof {
                    assert(a@.subrange(0, a.len() as int) =~= a@);
                }
                Value::Array(r)
            },
            Value::TemplateString(t) => {
                let mut r: Vec<TemplateValue> = Vec::new();
                let mut i: usize = 0;
                while i < t.len()
                    invariant
                        i <= t.len(),
                        template_model(r@) == template_model(t@.subrange(0, i as int)),
                        *self == Value::TemplateString(*t),
                    decreases t.len() - i,
                {
                    proof {
                        vstd::std_specs::vec::axiom_vec_index_decreases(*t, i as int);
                        assert(decreases_to!(*self => (*self)->TemplateString_0));
                        assert(decreases_to!(*t => t[i as int]));
                    }
                    let part = match &t[i] {
                        TemplateValue::String(s) => TemplateValue::String(s.clone()),
                        TemplateValue::Interpolation(v) => TemplateValue::Interpolation(
                            v.deep_clone(),
                        ),
                    };
                    proof {
                        assert(r@.push(part).drop_last() =~= r@);
                        assert(t@.subrange(0, i + 1).drop_last() =~= t@.subrange(0, i as int));
                    }
                    r.push(part);
                    i += 1;
                }
                proof {
                    assert(t@.subrange(0, t.len() as int) =~= t@);
                }
                Value::TemplateString(r)
            },
            Value::Reference(ReferenceAsValue::Id(s)) => Value::Reference(
                ReferenceAsValue::Id(s.clone()),
            ),
            Value::Reference(ReferenceAsValue::Path(p)) => {
                let mut r: Vec<String> = Vec::new();
                let mut i: usize = 0;
                while i < p.len()
                    invariant
                        i <= p.len(),
                        r.len() == i,
                        forall|j: int| 0 <= j < i ==> #[trigger] r@[j]@ == p@[j]@,
                    decreases p.len() - i,
                {
                    r.push(p[i].clone());
                    i += 1;

                }
                proof {
                    assert(strings_model(r@) =~= strings_model(p@));
                }
                Value::Reference(ReferenceAsValue::Path(r))
            },
            Value::ReferenceDeclaration { id, value } => Value::ReferenceDeclaration {
                id: id.clone(),
                value: Box::new(value.deep_clone()),
            },
        }
    }
}

} // verus!
