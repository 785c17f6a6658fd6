use vstd::prelude::*;
use vstd::string::*;
use crate::number::{decimal_text, push_decimal};
use crate::types::{
    members_model, strings_model, template_model, value_model, values_model, ReferenceAsValue,
    TemplateModel, TemplateValue, Value, ValueModel,
};
use crate::utils::{escape, push_char, push_escaped, push_string};

verus! {

/// `n` spaces.
pub open spec fn spaces(n: nat) -> Seq<char> {
    Seq::new(n, |i: int| ' ')
}

/// A newline, or nothing in minified output.
pub open spec fn newline(minify: bool) -> Seq<char> {
    if minify {
        Seq::empty()
    } else {
        seq!['\n']
    }
}

/// A space, or nothing in minified output.
pub open spec fn gap(minify: bool) -> Seq<char> {
    if minify {
        Seq::empty()
    } else {
        seq![' ']
    }
}

/// `s` written as a double-quoted literal.
pub open spec fn quoted(s: Seq<char>) -> Seq<char> {
    seq!['"'] + escape(s) + seq!['"']
}

/// The text of a value whose enclosing object stands at `indent` spaces.
pub open spec fn render(v: ValueModel, indent: nat, minify: bool) -> Seq<char>
    decreases v,
{
    match v {
        ValueModel::Infinity => "Infinity"@,
        ValueModel::NegativeInfinity => "-Infinity"@,
        ValueModel::Null => "null"@,
        ValueModel::NaN => "NaN"@,
        ValueModel::String(s) => quoted(s),
        ValueModel::Number(d) => decimal_text(d),
        ValueModel::Boolean(b) => if b {
            "true"@
        } else {
            "false"@
        },
        ValueModel::Identifier(_) => Seq::empty(),
        ValueModel::Object(m) => {
            let ind: nat = if minify {
                0
            } else {
                indent
            };
            if m.len() == 0 {
                seq!['{', '}']
            } else {
                seq!['{'] + render_members(m, if minify {
                    0
                } else {
                    ind + 2
                }, minify) + newline(minify) + spaces(ind) + seq!['}']
            }
        },
        ValueModel::Array(a) => seq!['['] + render_elements(a, indent, minify) + seq![']'],
        ValueModel::TemplateString(t) => seq!['`'] + render_template(t, indent, minify) + seq![
            '`',
        ],
        ValueModel::ReferenceId(id) => seq!['#'] + quoted(id),
        ValueModel::ReferencePath(p) => seq!['#', '/'] + render_path(p),
        ValueModel::ReferenceDeclaration(id, value) => "#{"@ + gap(minify) + "#id:"@ + gap(minify)
            + quoted(id) + seq![';'] + gap(minify) + "#value:"@ + gap(minify) + render(
            *value,
            indent,
            minify,
        ) + seq![';'] + gap(minify) + seq!['}'],
    }
}

/// The members of an object, each on its own line at `inner` spaces, each
/// followed by a comma.
pub open spec fn render_members(m: Seq<(Seq<char>, ValueModel)>, inner: nat, minify: bool) -> Seq<
    char,
>
    decreases m,
{
    if m.len() == 0 {
        Seq::empty()
    } else {
        render_members(m.drop_last(), inner, minify) + newline(minify) + spaces(inner) + quoted(
            m.last().0,
        ) + seq![':'] + gap(minify) + render(m.last().1, inner, minify) + seq![',']
    }
}

/// The elements of an array, separated by commas (and a space unless minified).
pub open spec fn render_elements(a: Seq<ValueModel>, indent: nat, minify: bool) -> Seq<char>
    decreases a,
{
    if a.len() == 0 {
        Seq::empty()
    } else if a.len() == 1 {
        render(a[0], indent, minify)
    } else {
        render_elements(a.drop_last(), indent, minify) + seq![','] + gap(minify) + render(
            a.last(),
            indent,
            minify,
        )
    }
}

/// The runs of a template string: text as it is, values inside `${...}`.
pub open spec fn render_template(t: Seq<TemplateModel>, indent: nat, minify: bool) -> Seq<char>
    decreases t,
{
    if t.len() == 0 {
        Seq::empty()
    } else {
        render_template(t.drop_last(), indent, minify) + match t.last() {
            TemplateModel::Text(s) => s,
            TemplateModel::Interpolation(v) => seq!['$', '{'] + render(v, indent, minify) + seq![
                '}',
            ],
        }
    }
}

/// The segments of a path reference, each quoted, separated by `/`.
pub open spec fn render_path(p: Seq<Seq<char>>) -> Seq<char>
    decreases p.len(),
{
    if p.len() == 0 {
        Seq::empty()
    } else if p.len() == 1 {
        quoted(p[0])
    } else {
        render_path(p.drop_last()) + seq!['/'] + quoted(p.last())
    }
}

/// The number of objects in a value, nested ones included; it bounds how
/// deeply objects nest, and so how far the indentation grows.
pub open spec fn nesting(v: ValueModel) -> nat
    decreases v,
{
    match v {
        ValueModel::Object(m) => 1 + nesting_members(m),
        ValueModel::Array(a) => nesting_elements(a),
        ValueModel::TemplateString(t) => nesting_template(t),
        ValueModel::ReferenceDeclaration(_, value) => nesting(*value),
        _ => 0,
    }
}

pub open spec fn nesting_members(m: Seq<(Seq<char>, ValueModel)>) -> nat
    decreases m,
{
    if m.len() == 0 {
        0
    } else {
        nesting_members(m.drop_last()) + nesting(m.last().1)
    }
}

pub open spec fn nesting_elements(a: Seq<ValueModel>) -> nat
    decreases a,
{
    if a.len() == 0 {
        0
    } else {
        nesting_elements(a.drop_last()) + nesting(a.last())
    }
}

pub open spec fn nesting_template(t: Seq<TemplateModel>) -> nat
    decreases t,
{
    if t.len() == 0 {
        0
    } else {
        nesting_template(t.drop_last()) + match t.last() {
            TemplateModel::Text(_) => 0,
            TemplateModel::Interpolation(v) => nesting(v),
        }
    }
}

proof fn lemma_nesting_member(m: Seq<(String, Value)>, i: int)
    requires
        0 <= i < m.len(),
    ensures
        nesting(value_model(m[i].1)) <= nesting_members(members_model(m)),
    decreases m.len(),
{
    assert(members_model(m).drop_last() =~= members_model(m.drop_last()));
    if i < m.len() - 1 {
        lemma_nesting_member(m.drop_last(), i);
        assert(m.drop_last()[i] == m[i]);
    }
}

proof fn lemma_nesting_element(a: Seq<Value>, i: int)
    requires
        0 <= i < a.len(),
    ensures
        nesting(value_model(a[i])) <= nesting_elements(values_model(a)),
    decreases a.len(),
{
    assert(values_model(a).drop_last() =~= values_model(a.drop_last()));
    if i < a.len() - 1 {
        lemma_nesting_element(a.drop_last(), i);
        assert(a.drop_last()[i] == a[i]);
    }
}

proof fn lemma_nesting_part(t: Seq<TemplateValue>, i: int, v: Value)
    requires
        0 <= i < t.len(),
        t[i] == TemplateValue::Interpolation(v),
    ensures
        nesting(value_model(v)) <= nesting_template(template_model(t)),
    decreases t.len(),
{
    assert(template_model(t).drop_last() =~= template_model(t.drop_last()));
    if i < t.len() - 1 {
        assert(t.drop_last()[i] == t[i]);
        lemma_nesting_part(t.drop_last(), i, v);
    }
}

fn push_spaces(out: &mut String, n: usize)
    ensures
        final(out)@ == old(out)@ + spaces(n as nat),
{
    let mut i: usize = 0;
    while i < n
        invariant
            i <= n,
            out@ == old(out)@ + spaces(i as nat),
        decreases n - i,
    {
        push_char(out, ' ');
        i += 1;
        proof {
            assert(out@ =~= old(out)@ + spaces(i as nat));
        }
    }
}

fn push_quoted(out: &mut String, s: &String)
    ensures
        final(out)@ == old(out)@ + quoted(s@),
{
    push_char(out, '"');
    push_escaped(out, s);
    push_char(out, '"');
    proof {
        assert(out@ =~= old(out)@ + quoted(s@));
    }
}

fn push_gap(out: &mut String, minify: bool)
    ensures
        final(out)@ == old(out)@ + gap(minify),
{
    if !minify {
        push_char(out, ' ');
    }
    proof {
        assert(out@ =~= old(out)@ + gap(minify));
    }
}

fn write_object(out: &mut String, v: &Value, m: &Vec<(String, Value)>, indent: usize, minify: bool)
    requires
        *v == Value::Object(*m),
        minify || indent + 2 * nesting(v@) <= usize::MAX,
    ensures
        final(out)@ == old(out)@ + render(v@, indent as nat, minify),
    decreases *v, 0nat,
{
    let ghost start = out@;
    let ind: usize = if minify {
        0
    } else {
        indent
    };
    if m.len() == 0 {
        push_char(out, '{');
        push_char(out, '}');
        proof {
            assert(m@ =~= Seq::<(String, Value)>::empty());
            assert(members_model(m@) =~= Seq::<(Seq<char>, ValueModel)>::empty());
            assert(out@ =~= start + render(v@, indent as nat, minify));
        }
    } else {
        proof {
            lemma_nesting_member(m@, 0);
        }
        let inner: usize = if minify {
            0
        } else {
            indent + 2
        };
        push_char(out, '{');
        let mut i: usize = 0;
        while i < m.len()
            invariant
                i <= m.len(),
                *v == Value::Object(*m),
                inner == if minify {
                    0
                } else {
                    indent + 2
                },
                minify || indent + 2 * nesting(v@) <= usize::MAX,
                out@ == start + seq!['{'] + render_members(
                    members_model(m@.subrange(0, i as int)),
                    inner as nat,
                    minify,
                ),
            decreases m.len() - i,
        {
            let ghost before = out@;
            if !minify {
                push_char(out, '\n');
            }
            push_spaces(out, inner);
            push_quoted(out, &m[i].0);
            push_char(out, ':');
            push_gap(out, minify);
            proof {
                vstd::std_specs::vec::axiom_vec_index_decreases(*m, i as int);
                assert(decreases_to!(*v => (*v)->Object_0));
                assert(decreases_to!(*m => m[i as int]));
                assert(decreases_to!(m[i as int] => m[i as int].1));
                lemma_nesting_member(m@, i as int);
            }
            write_value(out, &m[i].1, inner, minify);
            push_char(out, ',');
            proof {
                let sub = m@.subrange(0, i + 1);
                assert(sub.drop_last() =~= m@.subrange(0, i as int));
                assert(members_model(sub).drop_last() == members_model(
                    m@.subrange(0, i as int),
                ));
                assert(out@ =~= start + seq!['{'] + render_members(
                    members_model(sub),
                    inner as nat,
                    minify,
                ));
            }
            i += 1;
        }
        if !minify {
            push_char(out, '\n');
        }
        push_spaces(out, ind);
        push_char(out, '}');
        proof {
            assert(m@.subrange(0, m.len() as int) =~= m@);
            assert(out@ =~= start + render(v@, indent as nat, minify));
        }
    }
    
}

fn write_array(out: &mut String, v: &Value, a: &Vec<Value>, indent: usize, minify: bool)
    requires
        *v == Value::Array(*a),
        minify || indent + 2 * nesting(v@) <= usize::MAX,
    ensures
        final(out)@ == old(out)@ + render(v@, indent as nat, minify),
    decreases *v, 0nat,
{
    let ghost start = out@;
    push_char(out, '[');
    let mut i: usize = 0;
    while i < a.len()
        invariant
            i <= a.len(),
            *v == Value::Array(*a),
            minify || indent + 2 * nesting(v@) <= usize::MAX,
            out@ == start + seq!['['] + render_elements(
                values_model(a@.subrange(0, i as int)),
                indent as nat,
                minify,
            ),
        decreases a.len() - i,
    {
        if i > 0 {
            push_char(out, ',');
            push_gap(out, minify);
        }
        proof {
            vstd::std_specs::vec::axiom_vec_index_decreases(*a, i as int);
            assert(decreases_to!(*v => (*v)->Array_0));
            assert(decreases_to!(*a => a[i as int]));
            lemma_nesting_element(a@, i as int);
        }
        write_value(out, &a[i], indent, minify);
        proof {
            let sub = a@.subrange(0, i + 1);
            assert(sub.drop_last() =~= a@.subrange(0, i as int));
            assert(values_model(sub).drop_last() == values_model(a@.subrange(0, i as int)));
            if i == 0 {
                assert(values_model(a@.subrange(0, 0)) =~= Seq::<ValueModel>::empty());
                assert(values_model(sub)[0] == values_model(sub).last());
            }
            assert(out@ =~= start + seq!['['] + render_elements(
                values_model(sub),
                indent as nat,
                minify,
            ));
        }
        i += 1;
    }
    push_char(out, ']');
    proof {
        assert(a@.subrange(0, a.len() as int) =~= a@);
        assert(out@ =~= start + render(v@, indent as nat, minify));
    }
    
}

fn write_template(out: &mut String, v: &Value, t: &Vec<TemplateValue>, indent: usize, minify: bool)
    requires
        *v == Value::TemplateString(*t),
        minify || indent + 2 * nesting(v@) <= usize::MAX,
    ensures
        final(out)@ == old(out)@ + render(v@, indent as nat, minify),
    decreases *v, 0nat,
{
    let ghost start = out@;
    push_char(out, '`');
    let mut i: usize = 0;
    while i < t.len()
        invariant
            i <= t.len(),
            *v == Value::TemplateString(*t),
            minify || indent + 2 * nesting(v@) <= usize::MAX,
            out@ == start + seq!['`'] + render_template(
                template_model(t@.subrange(0, i as int)),
                indent as nat,
                minify,
            ),
        decreases t.len() - i,
    {
        match &t[i] {
            TemplateValue::String(s) => push_string(out, s),
            TemplateValue::Interpolation(x) => {
                push_char(out, '$');
                push_char(out, '{');
                proof {
                    vstd::std_specs::vec::axiom_vec_index_decreases(*t, i as int);
                    assert(decreases_to!(*v => (*v)->TemplateString_0));
                    assert(decreases_to!(*t => t[i as int]));
                    lemma_nesting_part(t@, i as int, *x);
                }
                write_value(out, x, indent, minify);
                push_char(out, '}');
            },
        }
        proof {
            let sub = t@.subrange(0, i + 1);
            assert(sub.drop_last() =~= t@.subrange(0, i as int));
            assert(template_model(sub).drop_last() == template_model(
                t@.subrange(0, i as int),
            ));
            assert(out@ =~= start + seq!['`'] + render_template(
                template_model(sub),
                indent as nat,
                minify,
            ));
        }
        i += 1;
    }
    push_char(out, '`');
    proof {
        assert(t@.subrange(0, t.len() as int) =~= t@);
        assert(out@ =~= start + render(v@, indent as nat, minify));
    }
    
}

/// Appends the text of `v` to `out`.
#[verifier::rlimit(40)]
pub(crate) fn write_value(out: &mut String, v: &Value, indent: usize, minify: bool)
    requires
        minify || indent + 2 * nesting(v@) <= usize::MAX,
    ensures
        final(out)@ == old(out)@ + render(v@, indent as nat, minify),
    decreases *v, 1nat,
{
    let ghost start = out@;
    match v {
        Value::Infinity => out.append("Infinity"),
        Value::NegativeInfinity => out.append("-Infinity"),
        Value::Null => out.append("null"),
        Value::NaN => out.append("NaN"),
        Value::String(s) => push_quoted(out, s),
        Value::Number(d) => push_decimal(out, *d),
        Value::Boolean(b) => {
            if *b {
                out.append("true")
            } else {
                out.append("false")
            }
        },
        Value::Identifier(_) => {
            proof {
                assert(out@ =~= start + render(v@, indent as nat, minify));
            }
        },
        Value::Object(m) => write_object(out, v, m, indent, minify),
        Value::Array(a) => write_array(out, v, a, indent, minify),
        Value::TemplateString(t) => write_template(out, v, t, indent, minify),
        Value::Reference(ReferenceAsValue::Id(id)) => {
            push_char(out, '#');
            push_quoted(out, id);
            proof {
                assert(out@ =~= start + render(v@, indent as nat, minify));
            }
        },
        Value::Reference(ReferenceAsValue::Path(p)) => {
            push_char(out, '#');
            push_char(out, '/');
            let mut i: usize = 0;
            while i < p.len()
                invariant
                    i <= p.len(),
                    out@ == start + seq!['#', '/'] + render_path(
                        strings_model(p@.subrange(0, i as int)),
                    ),
                decreases p.len() - i,
            {
                if i > 0 {
                    push_char(out, '/');
                }
                push_quoted(out, &p[i]);
                proof {
                    let sub = p@.subrange(0, i + 1);
                    assert(strings_model(sub).drop_last() =~= strings_model(
                        p@.subrange(0, i as int),
                    ));
                    assert(out@ =~= start + seq!['#', '/'] + render_path(strings_model(sub)));
                }
                i += 1;
            }
            proof {
                assert(p@.subrange(0, p.len() as int) =~= p@);
                assert(out@ =~= start + render(v@, indent as nat, minify));
            }
        },
        Value::ReferenceDeclaration { id, value } => {
            out.append("#{");
            push_gap(out, minify);
            out.append("#id:");
            push_gap(out, minify);
            push_quoted(out, id);
            push_char(out, ';');
            push_gap(out, minify);
            out.append("#value:");
            push_gap(out, minify);
            write_value(out, value, indent, minify);
            push_char(out, ';');
            push_gap(out, minify);
            push_char(out, '}');
            proof {
                assert(out@ =~= start + render(v@, indent as nat, minify));
            }
        },
    }
}

/// What is left of `budget` after `2 * nesting(v)`, if that fits.
fn remaining_after(v: &Value, budget: usize) -> (r: Option<usize>)
    ensures
        match r {
            Some(b) => b + 2 * nesting(v@) == budget,
            None => 2 * nesting(v@) > budget,
        },
    decreases *v, 1nat,
{
    match v {
        Value::Object(m) => {
            if budget < 2 {
                return None;
            }
            match remaining_after_members(v, m, budget - 2) {
                Some(b) => Some(b),
                None => None,
            }
        },
        Value::Array(a) => remaining_after_items(v, a, budget),
        Value::TemplateString(t) => remaining_after_parts(v, t, budget),
        Value::ReferenceDeclaration { id, value } => remaining_after(value, budget),
        _ => Some(budget),
    }
}

fn remaining_after_members(v: &Value, m: &Vec<(String, Value)>, budget: usize) -> (r: Option<
    usize,
>)
    requires
        *v == Value::Object(*m),
    ensures
        match r {
            Some(b) => b + 2 * nesting_members(members_model(m@)) == budget,
            None => 2 * nesting_members(members_model(m@)) > budget,
        },
    decreases *v, 0nat,
{
    let mut b = budget;
    let mut i: usize = 0;
    while i < m.len()
        invariant
            i <= m.len(),
            *v == Value::Object(*m),
            b + 2 * nesting_members(members_model(m@.subrange(0, i as int))) == budget,
        decreases m.len() - i,
    {
        proof {
            vstd::std_specs::vec::axiom_vec_index_decreases(*m, i as int);
            assert(decreases_to!(*v => (*v)->Object_0));
            assert(decreases_to!(*m => m[i as int]));
            assert(decreases_to!(m[i as int] => m[i as int].1));
            let sub = m@.subrange(0, i + 1);
            assert(sub.drop_last() =~= m@.subrange(0, i as int));
            assert(members_model(sub).drop_last() =~= members_model(m@.subrange(0, i as int)));
        }
        match remaining_after(&m[i].1, b) {
            Some(nb) => {
                b = nb;
            },
            None => {
                proof {
                    lemma_prefix_nesting_members(m@, i + 1);
                }
                return None;
            },
        }
        i += 1;
    }
    proof {
        assert(m@.subrange(0, m.len() as int) =~= m@);
    }
    Some(b)
}

fn remaining_after_items(v: &Value, a: &Vec<Value>, budget: usize) -> (r: Option<usize>)
    requires
        *v == Value::Array(*a),
    ensures
        match r {
            Some(b) => b + 2 * nesting(v@) == budget,
            None => 2 * nesting(v@) > budget,
        },
    decreases *v, 0nat,
{
    let mut b = budget;
    let mut i: usize = 0;
    while i < a.len()
        invariant
            i <= a.len(),
            *v == Value::Array(*a),
            b + 2 * nesting_elements(values_model(a@.subrange(0, i as int))) == budget,
        decreases a.len() - i,
    {
        proof {
            vstd::std_specs::vec::axiom_vec_index_decreases(*a, i as int);
            assert(decreases_to!(*v => (*v)->Array_0));
            assert(decreases_to!(*a => a[i as int]));
            let sub = a@.subrange(0, i + 1);
            assert(sub.drop_last() =~= a@.subrange(0, i as int));
            assert(values_model(sub).drop_last() =~= values_model(a@.subrange(0, i as int)));
        }
        match remaining_after(&a[i], b) {
            Some(nb) => {
                b = nb;
            },
            None => {
                proof {
                    lemma_prefix_nesting_elements(a@, i + 1);
                }
                return None;
            },
        }
        i += 1;
    }
    proof {
        assert(a@.subrange(0, a.len() as int) =~= a@);
    }
    Some(b)
}

fn remaining_after_parts(v: &Value, t: &Vec<TemplateValue>, budget: usize) -> (r: Option<usize>)
    requires
        *v == Value::TemplateString(*t),
    ensures
        match r {
            Some(b) => b + 2 * nesting(v@) == budget,
            None => 2 * nesting(v@) > budget,
        },
    decreases *v, 0nat,
{
    let mut b = budget;
    let mut i: usize = 0;
    while i < t.len()
        invariant
            i <= t.len(),
            *v == Value::TemplateString(*t),
            b + 2 * nesting_template(template_model(t@.subrange(0, i as int))) == budget,
        decreases t.len() - i,
    {
        proof {
            let sub = t@.subrange(0, i + 1);
            assert(sub.drop_last() =~= t@.subrange(0, i as int));
            assert(template_model(sub).drop_last() =~= template_model(t@.subrange(0, i as int)));
        }
        match &t[i] {
            TemplateValue::String(_) => {},
            TemplateValue::Interpolation(x) => {
                proof {
                    vstd::std_specs::vec::axiom_vec_index_decreases(*t, i as int);
                    assert(decreases_to!(*v => (*v)->TemplateString_0));
                    assert(decreases_to!(*t => t[i as int]));
                }
                match remaining_after(x, b) {
                    Some(nb) => {
                        b = nb;
                    },
                    None => {
                        proof {
                            lemma_prefix_nesting_template(t@, i + 1);
                        }
                        return None;
                    },
                }
            },
        }
        i += 1;
    }
    proof {
        assert(t@.subrange(0, t.len() as int) =~= t@);
    }
    Some(b)
}

proof fn lemma_prefix_nesting_members(m: Seq<(String, Value)>, i: int)
    requires
        0 <= i <= m.len(),
    ensures
        nesting_members(members_model(m.subrange(0, i))) <= nesting_members(members_model(m)),
    decreases m.len(),
{
    if i < m.len() {
        lemma_prefix_nesting_members(m.drop_last(), i);
        assert(m.drop_last().subrange(0, i) =~= m.subrange(0, i));
        assert(members_model(m).drop_last() =~= members_model(m.drop_last()));
    } else {
        assert(m.subrange(0, i) =~= m);
    }
}

proof fn lemma_prefix_nesting_elements(a: Seq<Value>, i: int)
    requires
        0 <= i <= a.len(),
    ensures
        nesting_elements(values_model(a.subrange(0, i))) <= nesting_elements(values_model(a)),
    decreases a.len(),
{
    if i < a.len() {
        lemma_prefix_nesting_elements(a.drop_last(), i);
        assert(a.drop_last().subrange(0, i) =~= a.subrange(0, i));
        assert(values_model(a).drop_last() =~= values_model(a.drop_last()));
    } else {
        assert(a.subrange(0, i) =~= a);
    }
}

proof fn lemma_prefix_nesting_template(t: Seq<TemplateValue>, i: int)
    requires
        0 <= i <= t.len(),
    ensures
        nesting_template(template_model(t.subrange(0, i))) <= nesting_template(template_model(t)),
    decreases t.len(),
{
    if i < t.len() {
        lemma_prefix_nesting_template(t.drop_last(), i);
        assert(t.drop_last().subrange(0, i) =~= t.subrange(0, i));
        assert(template_model(t).drop_last() =~= template_model(t.drop_last()));
    } else {
        assert(t.subrange(0, i) =~= t);
    }
}

/// Whether a value can be rendered with its outermost object at `ident`
/// spaces: whether `ident + 2 * nesting(v)` fits in `usize`.
pub fn indent_fits(v: &Value, ident: usize) -> (r: bool)
    ensures
        r == (ident + 2 * nesting(v@) <= usize::MAX),
{
    remaining_after(v, usize::MAX - ident).is_some()
}

/// Renders `val` as canonical text. Its members stand at `ident + 2` spaces,
/// and an object closes at `ident` spaces; in minified output structural
/// whitespace is left out.
pub fn stringify(val: Value, ident: usize, minify: bool) -> (r: String)
    requires
        minify || ident + 2 * nesting(val@) <= usize::MAX,
    ensures
        r@ == render(val@, ident as nat, minify),
{
    let mut out = String::new();
    write_value(&mut out, &val, ident, minify);
    proof {
        assert(out@ =~= render(val@, ident as nat, minify));
    }
    out
}

} // verus!
