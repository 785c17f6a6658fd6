use vstd::prelude::*;
use crate::number::{decimal_literal, hex_literal, read_decimal, read_hex};
use crate::parser::tree::{name_text, Name, Node, TemplatePart};
use crate::stringify_json::{render, write_value};
use crate::types::{
    lemma_members_model, lookup, members_model, value_model, values_model, ReferencesManager,
    Value, ValueModel,
};
use crate::utils::{chars_of, push_char, push_chars, push_string, push_unescaped, unescape};

verus! {

/// A resolution context: entries from keys to resolved values, later ones
/// shadowing earlier ones.
pub type Context = Seq<(Seq<char>, ValueModel)>;

pub open spec fn or_null(o: Option<ValueModel>) -> ValueModel {
    match o {
        Some(v) => v,
        None => ValueModel::Null,
    }
}

/// The key that a path reference looks up: `/seg0/seg1/...`.
pub open spec fn path_key(segs: Seq<Name>) -> Seq<char>
    decreases segs.len(),
{
    if segs.len() == 0 {
        Seq::empty()
    } else {
        path_key(segs.drop_last()) + seq!['/'] + name_text(segs.last())
    }
}

/// Where the last member under `k` stands.
pub open spec fn last_index(m: Seq<(Seq<char>, ValueModel)>, k: Seq<char>) -> Option<int>
    decreases m.len(),
{
    if m.len() == 0 {
        None
    } else if m.last().0 == k {
        Some(m.len() - 1)
    } else {
        last_index(m.drop_last(), k)
    }
}

/// The members `m` with `k` bound to `v`: in place of an earlier binding of
/// `k`, or else at the end.
pub open spec fn put(m: Seq<(Seq<char>, ValueModel)>, k: Seq<char>, v: ValueModel) -> Seq<
    (Seq<char>, ValueModel),
> {
    match last_index(m, k) {
        Some(j) => m.update(j, (k, v)),
        None => m.push((k, v)),
    }
}

/// How an interpolated value is spliced into a template: a string as its
/// text, anything else as its minified rendering.
pub open spec fn splice(v: ValueModel) -> Seq<char> {
    match v {
        ValueModel::String(s) => s,
        _ => render(v, 0, true),
    }
}

/// The value that a node stands for, with `refs` for ids and `paths` for paths.
pub open spec fn resolve(n: Node, refs: Context, paths: Context) -> ValueModel
    decreases n,
{
    match n {
        Node::Decimal { negative, digits, fraction_len } => ValueModel::Number(
            decimal_literal(negative, digits@, fraction_len as nat),
        ),
        Node::Hex(digits) => ValueModel::Number(hex_literal(digits@)),
        Node::Infinity(negative) => if negative {
            ValueModel::NegativeInfinity
        } else {
            ValueModel::Infinity
        },
        Node::Text(body) => ValueModel::String(unescape(body@)),
        Node::Template(parts) => ValueModel::String(unescape(interpolate(parts@, refs, paths))),
        Node::Boolean(b) => ValueModel::Boolean(b),
        Node::Null => ValueModel::Null,
        Node::NaN => ValueModel::NaN,
        Node::Reference(id) => or_null(lookup(refs, name_text(id))),
        Node::PathReference(segs) => or_null(lookup(paths, path_key(segs@))),
        Node::Declaration { id, value } => resolve(*value, refs, paths),
        Node::Object(m) => ValueModel::Object(resolve_members(m@, refs, paths)),
        Node::Array(a) => ValueModel::Array(resolve_items(a@, refs, paths)),
    }
}

/// The members of an object, in order, a repeated key keeping the last value.
pub open spec fn resolve_members(m: Seq<(Name, Node)>, refs: Context, paths: Context) -> Seq<
    (Seq<char>, ValueModel),
>
    decreases m,
{
    if m.len() == 0 {
        Seq::empty()
    } else {
        put(
            resolve_members(m.drop_last(), refs, paths),
            name_text(m.last().0),
            resolve(m.last().1, refs, paths),
        )
    }
}

pub open spec fn resolve_items(a: Seq<Node>, refs: Context, paths: Context) -> Seq<ValueModel>
    decreases a,
{
    if a.len() == 0 {
        Seq::empty()
    } else {
        resolve_items(a.drop_last(), refs, paths).push(resolve(a.last(), refs, paths))
    }
}

/// The text of a template before its escapes are replaced.
pub open spec fn interpolate(t: Seq<TemplatePart>, refs: Context, paths: Context) -> Seq<char>
    decreases t,
{
    if t.len() == 0 {
        Seq::empty()
    } else {
        interpolate(t.drop_last(), refs, paths) + match t.last() {
            TemplatePart::Text(s) => s@,
            TemplatePart::Interpolation(x) => splice(resolve(x, refs, paths)),
        }
    }
}


/// Nodes indexed by key, in document order; a later entry shadows an earlier one.
pub type Index = Seq<(Seq<char>, Node)>;

/// Every object member of `n`, under its path: the prefix of the enclosing
/// object followed by the member's key. The members of an object that is a
/// member's value get the prefix `<path of the member>/`; every other node is
/// searched with the prefix unchanged.
pub open spec fn path_entries(n: Node, prefix: Seq<char>) -> Index
    decreases n,
{
    match n {
        Node::Object(m) => member_path_entries(m@, prefix),
        Node::Array(a) => item_path_entries(a@, prefix),
        Node::Template(t) => part_path_entries(t@, prefix),
        Node::Declaration { id, value } => path_entries(*value, prefix),
        _ => Seq::empty(),
    }
}

pub open spec fn member_path_entries(m: Seq<(Name, Node)>, prefix: Seq<char>) -> Index
    decreases m,
{
    if m.len() == 0 {
        Seq::empty()
    } else {
        let key = prefix + name_text(m.last().0);
        let v = m.last().1;
        member_path_entries(m.drop_last(), prefix) + seq![(key, v)] + path_entries(
            v,
            if v is Object {
                key + seq!['/']
            } else {
                prefix
            },
        )
    }
}

pub open spec fn item_path_entries(a: Seq<Node>, prefix: Seq<char>) -> Index
    decreases a,
{
    if a.len() == 0 {
        Seq::empty()
    } else {
        item_path_entries(a.drop_last(), prefix) + path_entries(a.last(), prefix)
    }
}

pub open spec fn part_path_entries(t: Seq<TemplatePart>, prefix: Seq<char>) -> Index
    decreases t,
{
    if t.len() == 0 {
        Seq::empty()
    } else {
        part_path_entries(t.drop_last(), prefix) + match t.last() {
            TemplatePart::Text(_) => Seq::empty(),
            TemplatePart::Interpolation(x) => path_entries(x, prefix),
        }
    }
}

/// Every reference declaration of `n`, in document order, those inside another
/// declaration's value included: its id and the node of its value.
pub open spec fn decl_entries(n: Node) -> Index
    decreases n,
{
    match n {
        Node::Declaration { id, value } => seq![(name_text(id), *value)] + decl_entries(*value),
        Node::Object(m) => member_decl_entries(m@),
        Node::Array(a) => item_decl_entries(a@),
        Node::Template(t) => part_decl_entries(t@),
        _ => Seq::empty(),
    }
}

pub open spec fn member_decl_entries(m: Seq<(Name, Node)>) -> Index
    decreases m,
{
    if m.len() == 0 {
        Seq::empty()
    } else {
        member_decl_entries(m.drop_last()) + decl_entries(m.last().1)
    }
}

pub open spec fn item_decl_entries(a: Seq<Node>) -> Index
    decreases a,
{
    if a.len() == 0 {
        Seq::empty()
    } else {
        item_decl_entries(a.drop_last()) + decl_entries(a.last())
    }
}

pub open spec fn part_decl_entries(t: Seq<TemplatePart>) -> Index
    decreases t,
{
    if t.len() == 0 {
        Seq::empty()
    } else {
        part_decl_entries(t.drop_last()) + match t.last() {
            TemplatePart::Text(_) => Seq::empty(),
            TemplatePart::Interpolation(x) => decl_entries(x),
        }
    }
}

/// The first pass: each declaration resolved in order, with the ids resolved
/// before it and no paths.
pub open spec fn resolve_ids(e: Index) -> Context
    decreases e.len(),
{
    if e.len() == 0 {
        Seq::empty()
    } else {
        let prev = resolve_ids(e.drop_last());
        prev.push((e.last().0, resolve(e.last().1, prev, Seq::empty())))
    }
}

/// The second pass: each path entry resolved in order, with all ids and the
/// paths resolved before it.
pub open spec fn resolve_paths(e: Index, refs: Context) -> Context
    decreases e.len(),
{
    if e.len() == 0 {
        Seq::empty()
    } else {
        let prev = resolve_paths(e.drop_last(), refs);
        prev.push((e.last().0, resolve(e.last().1, refs, prev)))
    }
}

/// The value of a document: its root resolved with every id and path.
pub open spec fn document_value(root: Node) -> ValueModel {
    let refs = resolve_ids(decl_entries(root));
    let paths = resolve_paths(path_entries(root, seq!['/']), refs);
    resolve(root, refs, paths)
}

pub open spec fn index_model(v: Seq<(String, &Node)>) -> Index {
    v.map_values(|e: (String, &Node)| (e.0@, *e.1))
}

/// The keys of `m` are pairwise distinct.
pub open spec fn keys_unique(m: Seq<(Seq<char>, ValueModel)>) -> bool {
    forall|i: int, j: int| 0 <= i < m.len() && 0 <= j < m.len() && i != j ==> m[i].0 != m[j].0
}

/// A fully resolved value: no identifier, template, reference or declaration
/// anywhere in it, and unique keys in every object.
pub open spec fn is_plain(v: ValueModel) -> bool
    decreases v,
{
    match v {
        ValueModel::Object(m) => keys_unique(m) && plain_members(m),
        ValueModel::Array(a) => plain_items(a),
        ValueModel::Identifier(_) => false,
        ValueModel::TemplateString(_) => false,
        ValueModel::ReferenceId(_) => false,
        ValueModel::ReferencePath(_) => false,
        ValueModel::ReferenceDeclaration(_, _) => false,
        _ => true,
    }
}

pub open spec fn plain_members(m: Seq<(Seq<char>, ValueModel)>) -> bool
    decreases m,
{
    if m.len() == 0 {
        true
    } else {
        plain_members(m.drop_last()) && is_plain(m.last().1)
    }
}

pub open spec fn plain_items(a: Seq<ValueModel>) -> bool
    decreases a,
{
    if a.len() == 0 {
        true
    } else {
        plain_items(a.drop_last()) && is_plain(a.last())
    }
}

proof fn lemma_plain_members(m: Seq<(Seq<char>, ValueModel)>)
    ensures
        plain_members(m) == forall|i: int| 0 <= i < m.len() ==> #[trigger] is_plain(m[i].1),
    decreases m.len(),
{
    if m.len() > 0 {
        lemma_plain_members(m.drop_last());
        if forall|i: int| 0 <= i < m.len() ==> #[trigger] is_plain(m[i].1) {
            assert forall|i: int| 0 <= i < m.drop_last().len() implies #[trigger] is_plain(
                m.drop_last()[i].1,
            ) by {
                assert(m.drop_last()[i] == m[i]);
            }
            assert(is_plain(m[m.len() - 1].1));
        }
        if plain_members(m) {
            assert forall|i: int| 0 <= i < m.len() implies #[trigger] is_plain(m[i].1) by {
                if i < m.len() - 1 {
                    assert(m.drop_last()[i] == m[i]);
                    assert(is_plain(m.drop_last()[i].1));
                }
            }
        }
    }
}

proof fn lemma_plain_items(a: Seq<ValueModel>)
    ensures
        plain_items(a) == forall|i: int| 0 <= i < a.len() ==> #[trigger] is_plain(a[i]),
    decreases a.len(),
{
    if a.len() > 0 {
        lemma_plain_items(a.drop_last());
        if forall|i: int| 0 <= i < a.len() ==> #[trigger] is_plain(a[i]) {
            assert forall|i: int| 0 <= i < a.drop_last().len() implies #[trigger] is_plain(
                a.drop_last()[i],
            ) by {
                assert(a.drop_last()[i] == a[i]);
            }
            assert(is_plain(a[a.len() - 1]));
        }
        if plain_items(a) {
            assert forall|i: int| 0 <= i < a.len() implies #[trigger] is_plain(a[i]) by {
                if i < a.len() - 1 {
                    assert(a.drop_last()[i] == a[i]);
                    assert(is_plain(a.drop_last()[i]));
                }
            }
        }
    }
}

/// Every value of a context is plain.
pub open spec fn context_plain(c: Context) -> bool {
    forall|i: int| 0 <= i < c.len() ==> #[trigger] is_plain(c[i].1)
}

proof fn lemma_lookup_plain(c: Context, k: Seq<char>)
    requires
        context_plain(c),
    ensures
        lookup(c, k) matches Some(v) ==> is_plain(v),
    decreases c.len(),
{
    if c.len() > 0 {
        assert(is_plain(c[c.len() - 1].1));
    }
    if c.len() > 0 && c.last().0 != k {
        assert(context_plain(c.drop_last())) by {
            assert forall|i: int| 0 <= i < c.drop_last().len() implies #[trigger] is_plain(
                c.drop_last()[i].1,
            ) by {
                assert(c.drop_last()[i] == c[i]);
            }
        }
        lemma_lookup_plain(c.drop_last(), k);
    }
}

proof fn lemma_last_index(m: Seq<(Seq<char>, ValueModel)>, k: Seq<char>)
    ensures
        last_index(m, k) matches Some(j) ==> 0 <= j < m.len() && m[j].0 == k,
        last_index(m, k) is None ==> forall|i: int| 0 <= i < m.len() ==> m[i].0 != k,
    decreases m.len(),
{
    if m.len() > 0 && m.last().0 != k {
        lemma_last_index(m.drop_last(), k);
        if last_index(m, k) is None {
            assert forall|i: int| 0 <= i < m.len() implies m[i].0 != k by {
                if i < m.len() - 1 {
                    assert(m.drop_last()[i] == m[i]);
                }
            }
        }
    }
}

proof fn lemma_put_plain(m: Seq<(Seq<char>, ValueModel)>, k: Seq<char>, v: ValueModel)
    requires
        keys_unique(m),
        forall|i: int| 0 <= i < m.len() ==> #[trigger] is_plain(m[i].1),
        is_plain(v),
    ensures
        keys_unique(put(m, k, v)),
        forall|i: int| 0 <= i < put(m, k, v).len() ==> #[trigger] is_plain(put(m, k, v)[i].1),
{
    lemma_last_index(m, k);
}

proof fn lemma_resolve_plain(n: Node, refs: Context, paths: Context)
    requires
        context_plain(refs),
        context_plain(paths),
    ensures
        is_plain(resolve(n, refs, paths)),
    decreases n,
{
    match n {
        Node::Reference(id) => lemma_lookup_plain(refs, name_text(id)),
        Node::PathReference(segs) => lemma_lookup_plain(paths, path_key(segs@)),
        Node::Declaration { id, value } => lemma_resolve_plain(*value, refs, paths),
        Node::Object(m) => {
            lemma_members_plain(m@, refs, paths);
            lemma_plain_members(resolve_members(m@, refs, paths));
        },
        Node::Array(a) => {
            lemma_items_plain(a@, refs, paths);
            lemma_plain_items(resolve_items(a@, refs, paths));
        },
        _ => {},
    }
}

proof fn lemma_members_plain(m: Seq<(Name, Node)>, refs: Context, paths: Context)
    requires
        context_plain(refs),
        context_plain(paths),
    ensures
        keys_unique(resolve_members(m, refs, paths)),
        forall|i: int|
            0 <= i < resolve_members(m, refs, paths).len() ==> #[trigger] is_plain(
                resolve_members(m, refs, paths)[i].1,
            ),
    decreases m,
{
    if m.len() > 0 {
        lemma_members_plain(m.drop_last(), refs, paths);
        lemma_resolve_plain(m.last().1, refs, paths);
        lemma_put_plain(
            resolve_members(m.drop_last(), refs, paths),
            name_text(m.last().0),
            resolve(m.last().1, refs, paths),
        );
    }
}

proof fn lemma_items_plain(a: Seq<Node>, refs: Context, paths: Context)
    requires
        context_plain(refs),
        context_plain(paths),
    ensures
        forall|i: int|
            0 <= i < resolve_items(a, refs, paths).len() ==> #[trigger] is_plain(
                resolve_items(a, refs, paths)[i],
            ),
    decreases a,
{
    if a.len() > 0 {
        lemma_items_plain(a.drop_last(), refs, paths);
        lemma_resolve_plain(a.last(), refs, paths);
        let prev = resolve_items(a.drop_last(), refs, paths);
        assert forall|i: int| 0 <= i < resolve_items(a, refs, paths).len() implies #[trigger] is_plain(
            resolve_items(a, refs, paths)[i],
        ) by {
            if i < prev.len() {
                assert(resolve_items(a, refs, paths)[i] == prev[i]);
            }
        }
    }
}

proof fn lemma_ids_plain(e: Index)
    ensures
        context_plain(resolve_ids(e)),
    decreases e.len(),
{
    if e.len() > 0 {
        let prev = resolve_ids(e.drop_last());
        lemma_ids_plain(e.drop_last());
        lemma_resolve_plain(e.last().1, prev, Seq::empty());
        assert forall|i: int| 0 <= i < resolve_ids(e).len() implies #[trigger] is_plain(
            resolve_ids(e)[i].1,
        ) by {
            if i < prev.len() {
                assert(resolve_ids(e)[i] == prev[i]);
            }
        }
    }
}

proof fn lemma_paths_plain(e: Index, refs: Context)
    requires
        context_plain(refs),
    ensures
        context_plain(resolve_paths(e, refs)),
    decreases e.len(),
{
    if e.len() > 0 {
        let prev = resolve_paths(e.drop_last(), refs);
        lemma_paths_plain(e.drop_last(), refs);
        lemma_resolve_plain(e.last().1, refs, prev);
        assert forall|i: int| 0 <= i < resolve_paths(e, refs).len() implies #[trigger] is_plain(
            resolve_paths(e, refs)[i].1,
        ) by {
            if i < prev.len() {
                assert(resolve_paths(e, refs)[i] == prev[i]);
            }
        }
    }
}

/// Resolution leaves nothing to resolve: the value of any document holds no
/// identifier, template, reference or declaration, and the keys of each of its
/// objects are unique.
pub proof fn lemma_document_plain(root: Node)
    ensures
        is_plain(document_value(root)),
{
    let refs = resolve_ids(decl_entries(root));
    lemma_ids_plain(decl_entries(root));
    lemma_paths_plain(path_entries(root, seq!['/']), refs);
    lemma_resolve_plain(root, refs, resolve_paths(path_entries(root, seq!['/']), refs));
}

/// `Infinity`, `-Infinity` and `NaN` stand for their sentinels, and each
/// sentinel renders as its own token, in either mode and at any indentation.
pub proof fn lemma_special_literals(refs: Context, paths: Context, indent: nat, minify: bool)
    ensures
        resolve(Node::Infinity(false), refs, paths) == ValueModel::Infinity,
        resolve(Node::Infinity(true), refs, paths) == ValueModel::NegativeInfinity,
        resolve(Node::NaN, refs, paths) == ValueModel::NaN,
        render(ValueModel::Infinity, indent, minify) == "Infinity"@,
        render(ValueModel::NegativeInfinity, indent, minify) == "-Infinity"@,
        render(ValueModel::NaN, indent, minify) == "NaN"@,
{
}

fn name_string(n: &Name) -> (r: String)
    ensures
        r@ == name_text(*n),
{
    let mut out = String::new();
    match n {
        Name::Bare(s) => {
            push_chars(&mut out, s, 0, s.len());
            proof {
                assert(s@.subrange(0, s@.len() as int) =~= s@);
            }
        },
        Name::Quoted(s) => push_unescaped(&mut out, s),
    }
    proof {
        assert(out@ =~= name_text(*n));
    }
    out
}

fn path_string(segs: &Vec<Name>) -> (r: String)
    ensures
        r@ == path_key(segs@),
{
    let mut out = String::new();
    let mut i: usize = 0;
    while i < segs.len()
        invariant
            i <= segs.len(),
            out@ == path_key(segs@.subrange(0, i as int)),
        decreases segs.len() - i,
    {
        push_char(&mut out, '/');
        let seg = name_string(&segs[i]);
        push_string(&mut out, &seg);
        proof {
            assert(segs@.subrange(0, i + 1).drop_last() =~= segs@.subrange(0, i as int));
            assert(out@ =~= path_key(segs@.subrange(0, i + 1)));
        }
        i += 1;
    }
    proof {
        assert(segs@.subrange(0, segs.len() as int) =~= segs@);
    }
    out
}

fn find_index(m: &Vec<(String, Value)>, k: &String) -> (r: Option<usize>)
    ensures
        match r {
            Some(j) => last_index(members_model(m@), k@) == Some(j as int) && j < m.len(),
            None => last_index(members_model(m@), k@) is None,
        },
{
    let mut j: usize = m.len();
    proof {
        assert(m@.subrange(0, j as int) =~= m@);
    }
    while j > 0
        invariant
            j <= m.len(),
            last_index(members_model(m@), k@) == last_index(
                members_model(m@.subrange(0, j as int)),
                k@,
            ),
        decreases j,
    {
        let ghost sub = m@.subrange(0, j as int);
        proof {
            assert(sub.drop_last() =~= m@.subrange(0, j - 1));
            assert(members_model(sub).drop_last() =~= members_model(m@.subrange(0, j - 1)));
            assert(members_model(sub).last() == (m@[j - 1].0@, value_model(m@[j - 1].1)));
            lemma_members_model(sub);
        }
        if m[j - 1].0 == *k {
            return Some(j - 1);
        }
        j -= 1;
    }
    None
}

/// Binds `k` to `v` among the members `m`.
pub(crate) fn put_member(m: &mut Vec<(String, Value)>, k: String, v: Value)
    ensures
        members_model(final(m)@) == put(members_model(old(m)@), k@, v@),
{
    proof {
        lemma_members_model(m@);
    }
    match find_index(m, &k) {
        Some(j) => {
            let ghost k_model = k@;
            let ghost v_model = v@;
            m[j] = (k, v);
            proof {
                lemma_members_model(m@);
                assert(members_model(m@) =~= members_model(old(m)@).update(
                    j as int,
                    (k_model, v_model),
                ));
            }
        },
        None => {
            m.push((k, v));
            proof {
                assert(m@.drop_last() =~= old(m)@);
            }
        },
    }
}

/// The value that `n` stands for in the context of `mgr`.
pub fn parse_pair(n: &Node, mgr: &ReferencesManager) -> (r: Value)
    ensures
        r@ == resolve(*n, mgr.refs_model(), mgr.paths_model()),
    decreases *n, 1nat,
{
    match n {
        Node::Decimal { negative, digits, fraction_len } => Value::Number(
            read_decimal(*negative, digits, *fraction_len),
        ),
        Node::Hex(digits) => Value::Number(read_hex(digits)),
        Node::Infinity(negative) => if *negative {
            Value::NegativeInfinity
        } else {
            Value::Infinity
        },
        Node::Text(body) => {
            let mut out = String::new();
            push_unescaped(&mut out, body);
            proof {
                assert(out@ =~= unescape(body@));
            }
            Value::String(out)
        },
        Node::Template(parts) => resolve_template(n, parts, mgr),
        Node::Boolean(b) => Value::Boolean(*b),
        Node::Null => Value::Null,
        Node::NaN => Value::NaN,
        Node::Reference(id) => {
            match mgr.get_by_id(name_string(id)) {
                Some(v) => v,
                None => Value::Null,
            }
        },
        Node::PathReference(segs) => {
            match mgr.get_by_path(path_string(segs)) {
                Some(v) => v,
                None => Value::Null,
            }
        },
        Node::Declaration { id, value } => parse_pair(value, mgr),
        Node::Object(m) => resolve_object(n, m, mgr),
        Node::Array(a) => resolve_array(n, a, mgr),
    }
}

fn resolve_object(n: &Node, m: &Vec<(Name, Node)>, mgr: &ReferencesManager) -> (r: Value)
    requires
        *n == Node::Object(*m),
    ensures
        r@ == resolve(*n, mgr.refs_model(), mgr.paths_model()),
    decreases *n, 0nat,
{
    let ghost refs = mgr.refs_model();
    let ghost paths = mgr.paths_model();
    let mut out: Vec<(String, Value)> = Vec::new();
    let mut i: usize = 0;
    while i < m.len()
        invariant
            i <= m.len(),
            *n == Node::Object(*m),
            refs == mgr.refs_model(),
            paths == mgr.paths_model(),
            members_model(out@) == resolve_members(m@.subrange(0, i as int), refs, paths),
        decreases m.len() - i,
    {
        proof {
            vstd::std_specs::vec::axiom_vec_index_decreases(*m, i as int);
            assert(decreases_to!(*n => (*n)->Object_0));
            assert(decreases_to!(*m => m[i as int]));
            assert(decreases_to!(m[i as int] => m[i as int].1));
        }
        let k = name_string(&m[i].0);
        let v = parse_pair(&m[i].1, mgr);
        put_member(&mut out, k, v);
        proof {
            assert(m@.subrange(0, i + 1).drop_last() =~= m@.subrange(0, i as int));
        }
        i += 1;
    }
    proof {
        assert(m@.subrange(0, m.len() as int) =~= m@);
    }
    Value::Object(out)
}

fn resolve_array(n: &Node, a: &Vec<Node>, mgr: &ReferencesManager) -> (r: Value)
    requires
        *n == Node::Array(*a),
    ensures
        r@ == resolve(*n, mgr.refs_model(), mgr.paths_model()),
    decreases *n, 0nat,
{
    let ghost refs = mgr.refs_model();
    let ghost paths = mgr.paths_model();
    let mut out: Vec<Value> = Vec::new();
    let mut i: usize = 0;
    while i < a.len()
        invariant
            i <= a.len(),
            *n == Node::Array(*a),
            refs == mgr.refs_model(),
            paths == mgr.paths_model(),
            values_model(out@) == resolve_items(a@.subrange(0, i as int), refs, paths),
        decreases a.len() - i,
    {
        proof {
            vstd::std_specs::vec::axiom_vec_index_decreases(*a, i as int);
            assert(decreases_to!(*n => (*n)->Array_0));
            assert(decreases_to!(*a => a[i as int]));
        }
        let v = parse_pair(&a[i], mgr);
        let ghost prev = out@;
        out.push(v);
        proof {
            assert(out@.drop_last() =~= prev);
            assert(a@.subrange(0, i + 1).drop_last() =~= a@.subrange(0, i as int));
        }
        i += 1;
    }
    proof {
        assert(a@.subrange(0, a.len() as int) =~= a@);
    }
    Value::Array(out)
}

fn resolve_template(n: &Node, t: &Vec<TemplatePart>, mgr: &ReferencesManager) -> (r: Value)
    requires
        *n == Node::Template(*t),
    ensures
        r@ == resolve(*n, mgr.refs_model(), mgr.paths_model()),
    decreases *n, 0nat,
{
    let ghost refs = mgr.refs_model();
    let ghost paths = mgr.paths_model();
    let mut text = String::new();
    let mut i: usize = 0;
    while i < t.len()
        invariant
            i <= t.len(),
            *n == Node::Template(*t),
            refs == mgr.refs_model(),
            paths == mgr.paths_model(),
            text@ == interpolate(t@.subrange(0, i as int), refs, paths),
        decreases t.len() - i,
    {
        match &t[i] {
            TemplatePart::Text(s) => {
                push_chars(&mut text, s, 0, s.len());
                proof {
                    assert(s@.subrange(0, s@.len() as int) =~= s@);
                }
            },
            TemplatePart::Interpolation(x) => {
                proof {
                    vstd::std_specs::vec::axiom_vec_index_decreases(*t, i as int);
                    assert(decreases_to!(*n => (*n)->Template_0));
                    assert(decreases_to!(*t => t[i as int]));
                }
                let v = parse_pair(x, mgr);
                match &v {
                    Value::String(s) => push_string(&mut text, s),
                    _ => write_value(&mut text, &v, 0, true),
                }
            },
        }
        proof {
            assert(t@.subrange(0, i + 1).drop_last() =~= t@.subrange(0, i as int));
        }
        i += 1;
    }
    proof {
        assert(t@.subrange(0, t.len() as int) =~= t@);
    }
    let cs = chars_of(text.as_str());
    let mut out = String::new();
    push_unescaped(&mut out, &cs);
    proof {
        assert(out@ =~= unescape(text@));
    }
    Value::String(out)
}


fn push_entry<'a>(out: &mut Vec<(String, &'a Node)>, k: String, n: &'a Node)
    ensures
        index_model(final(out)@) == index_model(old(out)@).push((k@, *n)),
{
    out.push((k, n));
    proof {
        assert(index_model(out@) =~= index_model(old(out)@).push((k@, *n)));
    }
}

/// Appends `path_entries(n, prefix)` to `out`.
pub fn get_all_ref_paths<'a>(n: &'a Node, prefix: &String, out: &mut Vec<(String, &'a Node)>)
    ensures
        index_model(final(out)@) == index_model(old(out)@) + path_entries(*n, prefix@),
    decreases *n, 1nat,
{
    match n {
        Node::Object(m) => collect_member_paths(n, m, prefix, out),
        Node::Array(a) => {
            let mut i: usize = 0;
            while i < a.len()
                invariant
                    i <= a.len(),
                    *n == Node::Array(*a),
                    index_model(out@) == index_model(old(out)@) + item_path_entries(
                        a@.subrange(0, i as int),
                        prefix@,
                    ),
                decreases a.len() - i,
            {
                proof {
                    vstd::std_specs::vec::axiom_vec_index_decreases(*a, i as int);
                    assert(decreases_to!(*n => (*n)->Array_0));
                    assert(decreases_to!(*a => a[i as int]));
                    assert(a@.subrange(0, i + 1).drop_last() =~= a@.subrange(0, i as int));
                }
                get_all_ref_paths(&a[i], prefix, out);
                proof {
                    assert(index_model(out@) =~= index_model(old(out)@) + item_path_entries(
                        a@.subrange(0, i + 1),
                        prefix@,
                    ));
                }
                i += 1;
            }
            proof {
                assert(a@.subrange(0, a.len() as int) =~= a@);
            }
        },
        Node::Template(t) => {
            let mut i: usize = 0;
            while i < t.len()
                invariant
                    i <= t.len(),
                    *n == Node::Template(*t),
                    index_model(out@) == index_model(old(out)@) + part_path_entries(
                        t@.subrange(0, i as int),
                        prefix@,
                    ),
                decreases t.len() - i,
            {
                proof {
                    assert(t@.subrange(0, i + 1).drop_last() =~= t@.subrange(0, i as int));
                }
                match &t[i] {
                    TemplatePart::Text(_) => {
                        proof {
                            assert(index_model(out@) =~= index_model(old(out)@)
                                + part_path_entries(t@.subrange(0, i + 1), prefix@));
                        }
                    },
                    TemplatePart::Interpolation(x) => {
                        proof {
                            vstd::std_specs::vec::axiom_vec_index_decreases(*t, i as int);
                            assert(decreases_to!(*n => (*n)->Template_0));
                            assert(decreases_to!(*t => t[i as int]));
                        }
                        get_all_ref_paths(x, prefix, out);
                        proof {
                            assert(index_model(out@) =~= index_model(old(out)@)
                                + part_path_entries(t@.subrange(0, i + 1), prefix@));
                        }
                    },
                }
                i += 1;
            }
            proof {
                assert(t@.subrange(0, t.len() as int) =~= t@);
            }
        },
        Node::Declaration { id, value } => get_all_ref_paths(value, prefix, out),
        _ => {
            proof {
                assert(index_model(out@) =~= index_model(old(out)@) + path_entries(*n, prefix@));
            }
        },
    }
}

fn collect_member_paths<'a>(
    n: &'a Node,
    m: &'a Vec<(Name, Node)>,
    prefix: &String,
    out: &mut Vec<(String, &'a Node)>,
)
    requires
        *n == Node::Object(*m),
    ensures
        index_model(final(out)@) == index_model(old(out)@) + path_entries(*n, prefix@),
    decreases *n, 0nat,
{
    let mut i: usize = 0;
    while i < m.len()
        invariant
            i <= m.len(),
            *n == Node::Object(*m),
            index_model(out@) == index_model(old(out)@) + member_path_entries(
                m@.subrange(0, i as int),
                prefix@,
            ),
        decreases m.len() - i,
    {
        proof {
            vstd::std_specs::vec::axiom_vec_index_decreases(*m, i as int);
            assert(decreases_to!(*n => (*n)->Object_0));
            assert(decreases_to!(*m => m[i as int]));
            assert(decreases_to!(m[i as int] => m[i as int].1));
            assert(m@.subrange(0, i + 1).drop_last() =~= m@.subrange(0, i as int));
        }
        let ghost before = index_model(out@);
        let mut key = prefix.clone();
        let name = name_string(&m[i].0);
        push_string(&mut key, &name);
        let value: &'a Node = &m[i].1;
        let ghost key_model = key@;
        proof {
            assert(key_model == prefix@ + name_text(m@[i as int].0));
            assert(*value == m@[i as int].1);
        }
        if let Node::Object(_) = value {
            let mut nested = key.clone();
            push_char(&mut nested, '/');
            proof {
                assert(nested@ =~= key_model + seq!['/']);
            }
            push_entry(out, key, value);
            get_all_ref_paths(value, &nested, out);
            proof {
                assert(index_model(out@) == before.push((key_model, *value)) + path_entries(
                    *value,
                    key_model + seq!['/'],
                ));
            }
        } else {
            push_entry(out, key, value);
            get_all_ref_paths(value, prefix, out);
            proof {
                assert(index_model(out@) == before.push((key_model, *value)) + path_entries(
                    *value,
                    prefix@,
                ));
            }
        }
        proof {
            assert(index_model(out@) =~= index_model(old(out)@) + member_path_entries(
                m@.subrange(0, i + 1),
                prefix@,
            ));
        }
        i += 1;
    }
    proof {
        assert(m@.subrange(0, m.len() as int) =~= m@);
    }
}

/// Appends `decl_entries(n)` to `out`.
pub fn check_pair_for_ref<'a>(n: &'a Node, out: &mut Vec<(String, &'a Node)>)
    ensures
        index_model(final(out)@) == index_model(old(out)@) + decl_entries(*n),
    decreases *n,
{
    match n {
        Node::Declaration { id, value } => {
            let k = name_string(id);
            let v: &'a Node = value;
            push_entry(out, k, v);
            check_pair_for_ref(v, out);
            proof {
                assert(index_model(out@) =~= index_model(old(out)@) + decl_entries(*n));
            }
        },
        Node::Object(m) => {
            let mut i: usize = 0;
            while i < m.len()
                invariant
                    i <= m.len(),
                    *n == Node::Object(*m),
                    index_model(out@) == index_model(old(out)@) + member_decl_entries(
                        m@.subrange(0, i as int),
                    ),
                decreases m.len() - i,
            {
                proof {
                    vstd::std_specs::vec::axiom_vec_index_decreases(*m, i as int);
                    assert(decreases_to!(*n => (*n)->Object_0));
                    assert(decreases_to!(*m => m[i as int]));
                    assert(decreases_to!(m[i as int] => m[i as int].1));
                    assert(m@.subrange(0, i + 1).drop_last() =~= m@.subrange(0, i as int));
                }
                check_pair_for_ref(&m[i].1, out);
                proof {
                    assert(index_model(out@) =~= index_model(old(out)@) + member_decl_entries(
                        m@.subrange(0, i + 1),
                    ));
                }
                i += 1;
            }
            proof {
                assert(m@.subrange(0, m.len() as int) =~= m@);
            }
        },
        Node::Array(a) => {
            let mut i: usize = 0;
            while i < a.len()
                invariant
                    i <= a.len(),
                    *n == Node::Array(*a),
                    index_model(out@) == index_model(old(out)@) + item_decl_entries(
                        a@.subrange(0, i as int),
                    ),
                decreases a.len() - i,
            {
                proof {
                    vstd::std_specs::vec::axiom_vec_index_decreases(*a, i as int);
                    assert(decreases_to!(*n => (*n)->Array_0));
                    assert(decreases_to!(*a => a[i as int]));
                    assert(a@.subrange(0, i + 1).drop_last() =~= a@.subrange(0, i as int));
                }
                check_pair_for_ref(&a[i], out);
                proof {
                    assert(index_model(out@) =~= index_model(old(out)@) + item_decl_entries(
                        a@.subrange(0, i + 1),
                    ));
                }
                i += 1;
            }
            proof {
                assert(a@.subrange(0, a.len() as int) =~= a@);
            }
        },
        Node::Template(t) => {
            let mut i: usize = 0;
            while i < t.len()
                invariant
                    i <= t.len(),
                    *n == Node::Template(*t),
                    index_model(out@) == index_model(old(out)@) + part_decl_entries(
                        t@.subrange(0, i as int),
                    ),
                decreases t.len() - i,
            {
                proof {
                    assert(t@.subrange(0, i + 1).drop_last() =~= t@.subrange(0, i as int));
                }
                match &t[i] {
                    TemplatePart::Text(_) => {
                        proof {
                            assert(index_model(out@) =~= index_model(old(out)@)
                                + part_decl_entries(t@.subrange(0, i + 1)));
                        }
                    },
                    TemplatePart::Interpolation(x) => {
                        proof {
                            vstd::std_specs::vec::axiom_vec_index_decreases(*t, i as int);
                            assert(decreases_to!(*n => (*n)->Template_0));
                            assert(decreases_to!(*t => t[i as int]));
                        }
                        check_pair_for_ref(x, out);
                        proof {
                            assert(index_model(out@) =~= index_model(old(out)@)
                                + part_decl_entries(t@.subrange(0, i + 1)));
                        }
                    },
                }
                i += 1;
            }
            proof {
                assert(t@.subrange(0, t.len() as int) =~= t@);
            }
        },
        _ => {
            proof {
                assert(index_model(out@) =~= index_model(old(out)@) + decl_entries(*n));
            }
        },
    }
}

/// Resolves a document: first every declared id, in document order, then every
/// object member's path, in document order, then the root with all of them.
pub fn to_hashmap(root: &Node) -> (r: Value)
    ensures
        r@ == document_value(*root),
{
    let mut decls: Vec<(String, &Node)> = Vec::new();
    check_pair_for_ref(root, &mut decls);
    let mut prefix = String::new();
    push_char(&mut prefix, '/');
    let mut paths: Vec<(String, &Node)> = Vec::new();
    get_all_ref_paths(root, &prefix, &mut paths);
    proof {
        assert(index_model(decls@) =~= decl_entries(*root));
        assert(index_model(paths@) =~= path_entries(*root, seq!['/']));
        assert(prefix@ =~= seq!['/']);
    }
    let mut mgr = ReferencesManager::new();
    let ghost ids = index_model(decls@);
    let mut i: usize = 0;
    proof {
        assert(members_model(mgr.ref_paths@) =~= Seq::<(Seq<char>, ValueModel)>::empty());
        assert(ids.subrange(0, 0) =~= Seq::<(Seq<char>, Node)>::empty());
        assert(members_model(mgr.refs@) =~= Seq::<(Seq<char>, ValueModel)>::empty());
    }
    while i < decls.len()
        invariant
            i <= decls.len(),
            ids == index_model(decls@),
            mgr.ref_paths@.len() == 0,
            mgr.refs_model() == resolve_ids(ids.subrange(0, i as int)),
        decreases decls.len() - i,
    {
        proof {
            assert(members_model(mgr.ref_paths@) =~= Seq::<(Seq<char>, ValueModel)>::empty());
            assert(ids.subrange(0, i + 1).drop_last() =~= ids.subrange(0, i as int));
            assert(ids[i as int] == (decls@[i as int].0@, *decls@[i as int].1));
        }
        let v = parse_pair(decls[i].1, &mgr);
        let k = decls[i].0.clone();
        let ghost prev = mgr.refs@;
        mgr.refs.push((k, v));
        proof {
            assert(mgr.refs@.drop_last() =~= prev);
        }
        i += 1;
    }
    proof {
        assert(ids.subrange(0, decls.len() as int) =~= ids);
    }
    let ghost refs = mgr.refs_model();
    let ghost ps = index_model(paths@);
    let mut j: usize = 0;
    proof {
        assert(ps.subrange(0, 0) =~= Seq::<(Seq<char>, Node)>::empty());
        assert(members_model(mgr.ref_paths@) =~= Seq::<(Seq<char>, ValueModel)>::empty());
    }
    while j < paths.len()
        invariant
            j <= paths.len(),
            ps == index_model(paths@),
            refs == mgr.refs_model(),
            mgr.paths_model() == resolve_paths(ps.subrange(0, j as int), refs),
        decreases paths.len() - j,
    {
        proof {
            assert(ps.subrange(0, j + 1).drop_last() =~= ps.subrange(0, j as int));
            assert(ps[j as int] == (paths@[j as int].0@, *paths@[j as int].1));
        }
        let v = parse_pair(paths[j].1, &mgr);
        let k = paths[j].0.clone();
        let ghost prev = mgr.ref_paths@;
        mgr.ref_paths.push((k, v));
        proof {
            assert(mgr.ref_paths@.drop_last() =~= prev);
        }
        j += 1;
    }
    proof {
        assert(ps.subrange(0, paths.len() as int) =~= ps);
    }
    parse_pair(root, &mgr)
}

} // verus!
