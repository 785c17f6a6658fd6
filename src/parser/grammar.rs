use vstd::prelude::*;
use crate::parser::tree::{Name, Node, TemplatePart};

verus! {

pub open spec fn is_space(c: char) -> bool {
    c == ' ' || c == '\t' || c == '\n' || c == '\r'
}

pub open spec fn is_ident_start(c: char) -> bool {
    ('a' <= c <= 'z') || ('A' <= c <= 'Z') || c == '_' || c == '$'
}

pub open spec fn is_ident_char(c: char) -> bool {
    is_ident_start(c) || ('0' <= c <= '9')
}

pub open spec fn is_hex_digit(c: char) -> bool {
    ('0' <= c <= '9') || ('a' <= c <= 'f') || ('A' <= c <= 'F')
}

pub open spec fn sign(negative: bool) -> Seq<char> {
    if negative {
        seq!['-']
    } else {
        Seq::empty()
    }
}

pub open spec fn infinity_word() -> Seq<char> {
    seq!['I', 'n', 'f', 'i', 'n', 'i', 't', 'y']
}

/// How a decimal literal is written: sign, whole digits, and the last
/// `fraction_len` digits after a point.
pub open spec fn decimal_spelling(negative: bool, digits: Seq<char>, fraction_len: nat) -> Seq<
    char,
> {
    let w = digits.len() - fraction_len;
    sign(negative) + digits.subrange(0, w) + if fraction_len == 0 {
        Seq::<char>::empty()
    } else {
        seq!['.'] + digits.subrange(w, digits.len() as int)
    }
}

/// The text `t` that a node was read from agrees with the node: a literal is
/// its own spelling, a string its body between matching quotes, and a
/// container starts and ends with its delimiters.
pub open spec fn token_ok(n: Node, t: Seq<char>) -> bool {
    match n {
        Node::Decimal { negative, digits, fraction_len } => fraction_len < digits.len() && (forall|
            k: int,
        | 0 <= k < digits.len() ==> '0' <= #[trigger] digits@[k] <= '9') && t == decimal_spelling(
            negative,
            digits@,
            fraction_len as nat,
        ),
        Node::Hex(d) => d.len() > 0 && (forall|k: int| 0 <= k < d.len() ==> is_hex_digit(
            #[trigger] d@[k],
        )) && t == seq!['0', 'x'] + d@,
        Node::Infinity(negative) => t == sign(negative) + infinity_word(),
        Node::Text(body) => t.len() >= 2 && (t[0] == '"' || t[0] == '\'') && t.last() == t[0]
            && body@ == t.subrange(1, t.len() - 1),
        Node::Template(_) => t.len() >= 2 && t[0] == '`' && t.last() == '`',
        Node::Boolean(b) => t == if b {
            seq!['t', 'r', 'u', 'e']
        } else {
            seq!['f', 'a', 'l', 's', 'e']
        },
        Node::Null => t == seq!['n', 'u', 'l', 'l'],
        Node::NaN => t == seq!['N', 'a', 'N'],
        Node::Reference(_) => t.len() >= 2 && t[0] == '#',
        Node::PathReference(_) => t.len() >= 2 && t[0] == '#' && t[1] == '/',
        Node::Declaration { .. } => t.len() >= 3 && t[0] == '#' && t[1] == '{' && t.last() == '}',
        Node::Object(_) => t.len() >= 2 && t[0] == '{' && t.last() == '}',
        Node::Array(_) => t.len() >= 2 && t[0] == '[' && t.last() == ']',
    }
}

proof fn lemma_ends(s: Seq<char>, a: int, b: int)
    requires
        0 <= a < b <= s.len(),
    ensures
        s.subrange(a, b).len() == b - a,
        s.subrange(a, b)[0] == s[a],
        s.subrange(a, b).last() == s[b - 1],
{
}

pub open spec fn all_digits(t: Seq<char>) -> bool {
    forall|k: int| 0 <= k < t.len() ==> '0' <= #[trigger] t[k] <= '9'
}

/// A number written on its own: `-Infinity`, a `0x` literal, or an integer
/// with an optional `-`.
pub open spec fn number_token(t: Seq<char>) -> bool {
    ||| t == seq!['-'] + infinity_word()
    ||| (t.len() > 2 && t[0] == '0' && t[1] == 'x' && forall|k: int|
        2 <= k < t.len() ==> is_hex_digit(#[trigger] t[k]))
    ||| (t.len() > 0 && all_digits(t))
    ||| (t.len() > 1 && t[0] == '-' && all_digits(t.skip(1)))
}

/// A literal written on its own: a number token, or one of the words `true`,
/// `false`, `null`, `NaN`, `Infinity`.
pub open spec fn scalar_token(t: Seq<char>) -> bool {
    ||| number_token(t)
    ||| t == seq!['t', 'r', 'u', 'e']
    ||| t == seq!['f', 'a', 'l', 's', 'e']
    ||| t == seq!['n', 'u', 'l', 'l']
    ||| t == seq!['N', 'a', 'N']
    ||| t == infinity_word()
}

fn space_at(s: &Vec<char>, i: usize) -> (r: bool)
    requires
        i < s.len(),
    ensures
        r == is_space(s@[i as int]),
{
    let c = s[i];
    c == ' ' || c == '\t' || c == '\n' || c == '\r'
}

fn ident_start_at(s: &Vec<char>, i: usize) -> (r: bool)
    requires
        i < s.len(),
    ensures
        r == is_ident_start(s@[i as int]),
{
    let c = s[i];
    ('a' <= c && c <= 'z') || ('A' <= c && c <= 'Z') || c == '_' || c == '$'
}

fn ident_char_at(s: &Vec<char>, i: usize) -> (r: bool)
    requires
        i < s.len(),
    ensures
        r == is_ident_char(s@[i as int]),
{
    let c = s[i];
    ('a' <= c && c <= 'z') || ('A' <= c && c <= 'Z') || c == '_' || c == '$' || ('0' <= c && c
        <= '9')
}

fn digit_at(s: &Vec<char>, i: usize) -> (r: bool)
    requires
        i < s.len(),
    ensures
        r == ('0' <= s@[i as int] <= '9'),
{
    '0' <= s[i] && s[i] <= '9'
}

fn hex_digit_at(s: &Vec<char>, i: usize) -> (r: bool)
    requires
        i < s.len(),
    ensures
        r == is_hex_digit(s@[i as int]),
{
    let c = s[i];
    ('0' <= c && c <= '9') || ('a' <= c && c <= 'f') || ('A' <= c && c <= 'F')
}

/// The first position at or after `pos` that holds no whitespace.
fn skip_ws(s: &Vec<char>, pos: usize) -> (r: usize)
    requires
        pos <= s.len(),
    ensures
        pos <= r <= s.len(),
        forall|i: int| pos <= i < r ==> is_space(#[trigger] s@[i]),
        r == s.len() || !is_space(s@[r as int]),
{
    let mut i = pos;
    while i < s.len() && space_at(s, i)
        invariant
            pos <= i <= s.len(),
            forall|j: int| pos <= j < i ==> is_space(#[trigger] s@[j]),
        decreases s.len() - i,
    {
        i += 1;
    }
    i
}

/// The end of the identifier characters that start at `pos`.
fn word_end(s: &Vec<char>, pos: usize) -> (r: usize)
    requires
        pos <= s.len(),
    ensures
        pos <= r <= s.len(),
        forall|i: int| pos <= i < r ==> is_ident_char(#[trigger] s@[i]),
        r == s.len() || !is_ident_char(s@[r as int]),
{
    let mut i = pos;
    while i < s.len() && ident_char_at(s, i)
        invariant
            pos <= i <= s.len(),
            forall|j: int| pos <= j < i ==> is_ident_char(#[trigger] s@[j]),
        decreases s.len() - i,
    {
        i += 1;
    }
    i
}

/// The characters `s[from..to]`.
fn slice(s: &Vec<char>, from: usize, to: usize) -> (r: Vec<char>)
    requires
        from <= to <= s.len(),
    ensures
        r@ == s@.subrange(from as int, to as int),
{
    let mut r: Vec<char> = Vec::new();
    let mut i = from;
    while i < to
        invariant
            from <= i <= to <= s.len(),
            r@ == s@.subrange(from as int, i as int),
        decreases to - i,
    {
        r.push(s[i]);
        i += 1;
        proof {
            assert(r@ =~= s@.subrange(from as int, i as int));
        }
    }
    r
}

/// Whether `s[from..to]` is the word `w`.
fn is_word(s: &Vec<char>, from: usize, to: usize, w: &Vec<char>) -> (r: bool)
    requires
        from <= to <= s.len(),
    ensures
        r == (s@.subrange(from as int, to as int) == w@),
{
    if to - from != w.len() {
        proof {
            assert(s@.subrange(from as int, to as int).len() != w@.len());
        }
        return false;
    }
    let mut i: usize = 0;
    while i < w.len()
        invariant
            to - from == w.len(),
            from <= to <= s.len(),
            i <= w.len(),
            forall|j: int| 0 <= j < i ==> s@[from + j] == #[trigger] w@[j],
        decreases w.len() - i,
    {
        if s[from + i] != w[i] {
            proof {
                assert(s@.subrange(from as int, to as int)[i as int] != w@[i as int]);
            }
            return false;
        }
        i += 1;
    }
    proof {
        assert(s@.subrange(from as int, to as int) =~= w@);
    }
    true
}

/// A single- or double-quoted string starting at `pos`: its body, escapes kept,
/// and the position after the closing quote.
fn read_quoted(s: &Vec<char>, pos: usize) -> (r: Result<(Vec<char>, usize), usize>)
    requires
        pos < s.len(),
    ensures
        r matches Ok((_, p)) ==> pos < p <= s.len(),
        r matches Ok((b, p)) ==> pos + 2 <= p && s@[p - 1] == s@[pos as int] && b@
            == s@.subrange(pos + 1, p - 1),
        r matches Err(e) ==> e <= s.len(),
{
    let q = s[pos];
    let mut i = pos + 1;
    while i < s.len()
        invariant
            pos < i <= s.len(),
            q == s@[pos as int],
        decreases s.len() - i,
    {
        let c = s[i];
        if c == q {
            return Ok((slice(s, pos + 1, i), i + 1));
        }
        if c == '\\' {
            if i + 1 >= s.len() {
                return Err(s.len());
            }
            i += 2;
        } else {
            i += 1;
        }
    }
    Err(s.len())
}

/// A key, declared id or path segment starting at `pos`.
fn read_name(s: &Vec<char>, pos: usize) -> (r: Result<(Name, usize), usize>)
    requires
        pos <= s.len(),
    ensures
        r matches Ok((_, p)) ==> pos < p <= s.len(),
        r matches Err(e) ==> e <= s.len(),
{
    if pos >= s.len() {
        return Err(pos);
    }
    if s[pos] == '"' || s[pos] == '\'' {
        match read_quoted(s, pos) {
            Ok((body, p)) => Ok((Name::Quoted(body), p)),
            Err(e) => Err(e),
        }
    } else if ident_start_at(s, pos) {
        let end = word_end(s, pos);
        Ok((Name::Bare(slice(s, pos, end)), end))
    } else {
        Err(pos)
    }
}

/// Expects the character `c` at `pos`, and returns the position after it.
fn expect(s: &Vec<char>, pos: usize, c: char) -> (r: Result<usize, usize>)
    requires
        pos <= s.len(),
    ensures
        r matches Ok(p) ==> p == pos + 1 && p <= s.len() && s@[pos as int] == c,
        r matches Err(e) ==> e <= s.len(),
{
    if pos < s.len() && s[pos] == c {
        Ok(pos + 1)
    } else {
        Err(pos)
    }
}

/// A number starting at `pos` with a digit or `-`.
#[verifier::rlimit(80)]
fn parse_number(s: &Vec<char>, pos: usize) -> (r: Result<(Node, usize), usize>)
    requires
        pos < s.len(),
    ensures
        r matches Ok((_, p)) ==> pos < p <= s.len(),
        r matches Ok((n, p)) ==> token_ok(n, s@.subrange(pos as int, p as int)),
        r matches Err(e) ==> e <= s.len(),
        pos == 0 && number_token(s@) ==> (r matches Ok((_, p)) && p == s.len()),
{
    let negative = s[pos] == '-';
    let start: usize = if negative {
        pos + 1
    } else {
        pos
    };
    if start >= s.len() {
        return Err(start);
    }
    if ident_start_at(s, start) {
        let end = word_end(s, start);
        let infinity = vec!['I', 'n', 'f', 'i', 'n', 'i', 't', 'y'];
        proof {
            if pos == 0 && number_token(s@) {
                if s.len() > 1 {
                    assert(s@.skip(1)[0] == s@[1]);
                }
                assert(s@ == seq!['-'] + infinity_word());
                if end < s.len() {
                    assert(is_ident_char(s@[end as int]));
                }
                assert(s@.subrange(start as int, end as int) =~= infinity@);
            }
        }
        if is_word(s, start, end, &infinity) {
            proof {
                assert(infinity@ =~= infinity_word());
                assert(s@.subrange(pos as int, end as int) =~= sign(negative) + s@.subrange(
                    start as int,
                    end as int,
                ));
            }
            return Ok((Node::Infinity(negative), end));
        }
        return Err(start);
    }
    if !negative && s[start] == '0' && start + 1 < s.len() && s[start + 1] == 'x' {
        let mut j = start + 2;
        while j < s.len() && hex_digit_at(s, j)
            invariant
                start + 2 <= j <= s.len(),
                forall|k: int| start + 2 <= k < j ==> is_hex_digit(#[trigger] s@[k]),
            decreases s.len() - j,
        {
            j += 1;
        }
        proof {
            if pos == 0 && number_token(s@) && j < s.len() {
                assert(is_hex_digit(s@[j as int]));
            }
        }
        if j == start + 2 {
            return Err(j);
        }
        proof {
            assert(s@.subrange(pos as int, j as int) =~= seq!['0', 'x'] + s@.subrange(
                start + 2,
                j as int,
            ));
        }
        return Ok((Node::Hex(slice(s, start + 2, j)), j));
    }
    let mut j = start;
    while j < s.len() && digit_at(s, j)
        invariant
            start <= j <= s.len(),
            forall|k: int| start <= k < j ==> '0' <= #[trigger] s@[k] <= '9',
        decreases s.len() - j,
    {
        j += 1;
    }
    proof {
        if pos == 0 && number_token(s@) && j < s.len() {
            if negative {
                assert(s@.skip(1)[j - 1] == s@[j as int]);
            }
            assert('0' <= s@[j as int] <= '9');
        }
    }
    if j == start {
        return Err(start);
    }
    let mut digits = slice(s, start, j);
    let ghost signed = sign(negative);
    proof {
        assert(s@.subrange(pos as int, start as int) =~= signed);
    }
    if j < s.len() && j + 1 < s.len() && s[j] == '.' && digit_at(s, j + 1) {
        let mut k = j + 1;
        while k < s.len() && digit_at(s, k)
            invariant
                forall|q: int| start <= q < j ==> '0' <= #[trigger] s@[q] <= '9',
                forall|q: int| j + 1 <= q < k ==> '0' <= #[trigger] s@[q] <= '9',
                start <= j,
                j + 1 <= k <= s.len(),
                j < s.len(),
                digits@ == s@.subrange(start as int, j as int) + s@.subrange(j + 1, k as int),
            decreases s.len() - k,
        {
            digits.push(s[k]);
            k += 1;
            proof {
                assert(digits@ =~= s@.subrange(start as int, j as int) + s@.subrange(
                    j + 1,
                    k as int,
                ));
            }
        }
        proof {
            let w = digits@.len() - (k - j - 1);
            assert(digits@.subrange(0, w) =~= s@.subrange(start as int, j as int));
            assert(digits@.subrange(w, digits@.len() as int) =~= s@.subrange(j + 1, k as int));
            assert(s@.subrange(pos as int, k as int) =~= signed + s@.subrange(
                start as int,
                j as int,
            ) + (seq!['.'] + s@.subrange(j + 1, k as int)));
        }
        Ok((Node::Decimal { negative, digits, fraction_len: k - j - 1 }, k))
    } else {
        proof {
            assert(digits@.subrange(0, digits@.len() as int) =~= digits@);
            assert(s@.subrange(pos as int, j as int) =~= signed + s@.subrange(
                start as int,
                j as int,
            ) + Seq::<char>::empty());
        }
        Ok((Node::Decimal { negative, digits, fraction_len: 0 }, j))
    }
}

/// A value starting at `pos`, and the position after it.
#[verifier::rlimit(80)]
pub fn parse_value(s: &Vec<char>, pos: usize) -> (r: Result<(Node, usize), usize>)
    requires
        pos <= s.len(),
    ensures
        r matches Ok((_, p)) ==> pos < p <= s.len(),
        r matches Ok((n, p)) ==> token_ok(n, s@.subrange(pos as int, p as int)),
        r matches Err(e) ==> e <= s.len(),
        pos == 0 && scalar_token(s@) ==> (r matches Ok((_, p)) && p == s.len()),
    decreases s.len() - pos, 1nat,
{
    if pos >= s.len() {
        return Err(pos);
    }
    let c = s[pos];
    proof {
        if pos == 0 && scalar_token(s@) {
            if s.len() > 1 {
                assert(s@.skip(1)[0] == s@[1]);
            }
            if c == '-' || ('0' <= c <= '9') {
                assert(number_token(s@));
            } else {
                assert(!number_token(s@));
            }
        }
    }
    if c == '{' {
        parse_object(s, pos)
    } else if c == '[' {
        parse_array(s, pos)
    } else if c == '"' || c == '\'' {
        match read_quoted(s, pos) {
            Ok((body, p)) => {
                proof {
                    lemma_ends(s@, pos as int, p as int);
                    assert(s@.subrange(pos as int, p as int).subrange(1, p - pos - 1) =~= s@.subrange(
                        pos + 1,
                        p - 1,
                    ));
                }
                Ok((Node::Text(body), p))
            },
            Err(e) => Err(e),
        }
    } else if c == '`' {
        parse_template(s, pos)
    } else if c == '#' {
        parse_reference(s, pos)
    } else if c == '-' || digit_at(s, pos) {
        parse_number(s, pos)
    } else if ident_start_at(s, pos) {
        let end = word_end(s, pos);
        let w_true = vec!['t', 'r', 'u', 'e'];
        let w_false = vec!['f', 'a', 'l', 's', 'e'];
        let w_null = vec!['n', 'u', 'l', 'l'];
        let w_nan = vec!['N', 'a', 'N'];
        let w_infinity = vec!['I', 'n', 'f', 'i', 'n', 'i', 't', 'y'];
        proof {
            assert(w_true@ =~= seq!['t', 'r', 'u', 'e']);
            assert(w_false@ =~= seq!['f', 'a', 'l', 's', 'e']);
            assert(w_null@ =~= seq!['n', 'u', 'l', 'l']);
            assert(w_nan@ =~= seq!['N', 'a', 'N']);
            assert(w_infinity@ =~= infinity_word());
            assert(sign(false) + infinity_word() =~= infinity_word());
            if pos == 0 && scalar_token(s@) {
                if end < s.len() {
                    assert(is_ident_char(s@[end as int]));
                }
                assert(s@.subrange(0, end as int) =~= s@);
            }
        }
        if is_word(s, pos, end, &w_true) {
            Ok((Node::Boolean(true), end))
        } else if is_word(s, pos, end, &w_false) {
            Ok((Node::Boolean(false), end))
        } else if is_word(s, pos, end, &w_null) {
            Ok((Node::Null, end))
        } else if is_word(s, pos, end, &w_nan) {
            Ok((Node::NaN, end))
        } else if is_word(s, pos, end, &w_infinity) {
            Ok((Node::Infinity(false), end))
        } else {
            Err(pos)
        }
    } else {
        Err(pos)
    }
}

/// An object `{ key: value, ... }` starting at `pos`; a comma may follow the
/// last member.
fn parse_object(s: &Vec<char>, pos: usize) -> (r: Result<(Node, usize), usize>)
    requires
        pos < s.len(),
        s@[pos as int] == '{',
    ensures
        r matches Ok((_, p)) ==> pos < p <= s.len(),
        r matches Ok((n, p)) ==> token_ok(n, s@.subrange(pos as int, p as int)),
        r matches Err(e) ==> e <= s.len(),
    decreases s.len() - pos, 0nat,
{
    let mut members: Vec<(Name, Node)> = Vec::new();
    let mut i = skip_ws(s, pos + 1);
    while i < s.len()
        invariant
            pos < i <= s.len(),
            s@[pos as int] == '{',
        decreases s.len() - i,
    {
        if s[i] == '}' {
            proof {
                lemma_ends(s@, pos as int, i + 1);
            }
            return Ok((Node::Object(members), i + 1));
        }
        let (name, j) = match read_name(s, i) {
            Ok(x) => x,
            Err(e) => return Err(e),
        };
        let j = skip_ws(s, j);
        let j = match expect(s, j, ':') {
            Ok(p) => p,
            Err(e) => return Err(e),
        };
        let j = skip_ws(s, j);
        let (value, k) = match parse_value(s, j) {
            Ok(x) => x,
            Err(e) => return Err(e),
        };
        let k = skip_ws(s, k);
        members.push((name, value));
        if k < s.len() && s[k] == ',' {
            i = skip_ws(s, k + 1);
        } else if k < s.len() && s[k] == '}' {
            proof {
                lemma_ends(s@, pos as int, k + 1);
            }
            return Ok((Node::Object(members), k + 1));
        } else {
            return Err(k);
        }
    }
    Err(s.len())
}

/// An array `[ value, ... ]` starting at `pos`; a comma may follow the last
/// element.
fn parse_array(s: &Vec<char>, pos: usize) -> (r: Result<(Node, usize), usize>)
    requires
        pos < s.len(),
        s@[pos as int] == '[',
    ensures
        r matches Ok((_, p)) ==> pos < p <= s.len(),
        r matches Ok((n, p)) ==> token_ok(n, s@.subrange(pos as int, p as int)),
        r matches Err(e) ==> e <= s.len(),
    decreases s.len() - pos, 0nat,
{
    let mut items: Vec<Node> = Vec::new();
    let mut i = skip_ws(s, pos + 1);
    while i < s.len()
        invariant
            pos < i <= s.len(),
            s@[pos as int] == '[',
        decreases s.len() - i,
    {
        if s[i] == ']' {
            proof {
                lemma_ends(s@, pos as int, i + 1);
            }
            return Ok((Node::Array(items), i + 1));
        }
        let (value, k) = match parse_value(s, i) {
            Ok(x) => x,
            Err(e) => return Err(e),
        };
        let k = skip_ws(s, k);
        items.push(value);
        if k < s.len() && s[k] == ',' {
            i = skip_ws(s, k + 1);
        } else if k < s.len() && s[k] == ']' {
            proof {
                lemma_ends(s@, pos as int, k + 1);
            }
            return Ok((Node::Array(items), k + 1));
        } else {
            return Err(k);
        }
    }
    Err(s.len())
}

/// A template string starting at `pos`: runs of text, escapes kept, and
/// `${ value }` interpolations.
fn parse_template(s: &Vec<char>, pos: usize) -> (r: Result<(Node, usize), usize>)
    requires
        pos < s.len(),
        s@[pos as int] == '`',
    ensures
        r matches Ok((_, p)) ==> pos < p <= s.len(),
        r matches Ok((n, p)) ==> token_ok(n, s@.subrange(pos as int, p as int)),
        r matches Err(e) ==> e <= s.len(),
    decreases s.len() - pos, 0nat,
{
    let mut parts: Vec<TemplatePart> = Vec::new();
    let mut run: Vec<char> = Vec::new();
    let mut i = pos + 1;
    while i < s.len()
        invariant
            pos < i <= s.len(),
            s@[pos as int] == '`',
        decreases s.len() - i,
    {
        let c = s[i];
        if c == '`' {
            if run.len() > 0 {
                parts.push(TemplatePart::Text(run));
            }
            proof {
                lemma_ends(s@, pos as int, i + 1);
            }
            return Ok((Node::Template(parts), i + 1));
        } else if c == '\\' && i + 1 < s.len() {
            run.push(c);
            run.push(s[i + 1]);
            i += 2;
        } else if c == '$' && i + 1 < s.len() && s[i + 1] == '{' {
            if run.len() > 0 {
                parts.push(TemplatePart::Text(run));
                run = Vec::new();
            }
            let j = skip_ws(s, i + 2);
            let (value, k) = match parse_value(s, j) {
                Ok(x) => x,
                Err(e) => return Err(e),
            };
            let k = skip_ws(s, k);
            let k = match expect(s, k, '}') {
                Ok(p) => p,
                Err(e) => return Err(e),
            };
            parts.push(TemplatePart::Interpolation(value));
            i = k;
        } else {
            run.push(c);
            i += 1;
        }
    }
    Err(s.len())
}

/// `#` followed by a word `w`, at `pos`; returns the position after the word.
fn expect_tag(s: &Vec<char>, pos: usize, w: &Vec<char>) -> (r: Result<usize, usize>)
    requires
        pos <= s.len(),
    ensures
        r matches Ok(p) ==> pos < p <= s.len(),
        r matches Err(e) ==> e <= s.len(),
{
    if pos < s.len() && pos + 1 < s.len() && s[pos] == '#' {
        let end = word_end(s, pos + 1);
        if is_word(s, pos + 1, end, w) {
            return Ok(end);
        }
    }
    Err(pos)
}

/// A reference (`#id`, `#"id"`, `#/seg/seg`) or a reference declaration
/// (`#{ #id: name; #value: value; }`) starting at `pos`.
fn parse_reference(s: &Vec<char>, pos: usize) -> (r: Result<(Node, usize), usize>)
    requires
        pos < s.len(),
        s@[pos as int] == '#',
    ensures
        r matches Ok((_, p)) ==> pos < p <= s.len(),
        r matches Ok((n, p)) ==> token_ok(n, s@.subrange(pos as int, p as int)),
        r matches Err(e) ==> e <= s.len(),
    decreases s.len() - pos, 0nat,
{
    if pos + 1 >= s.len() {
        return Err(s.len());
    }
    let c = s[pos + 1];
    if c == '{' {
        let i = skip_ws(s, pos + 2);
        let i = match expect_tag(s, i, &vec!['i', 'd']) {
            Ok(p) => p,
            Err(e) => return Err(e),
        };
        let i = skip_ws(s, i);
        let i = match expect(s, i, ':') {
            Ok(p) => p,
            Err(e) => return Err(e),
        };
        let i = skip_ws(s, i);
        let (id, i) = match read_name(s, i) {
            Ok(x) => x,
            Err(e) => return Err(e),
        };
        let i = skip_ws(s, i);
        let i = match expect(s, i, ';') {
            Ok(p) => p,
            Err(e) => return Err(e),
        };
        let i = skip_ws(s, i);
        let i = match expect_tag(s, i, &vec!['v', 'a', 'l', 'u', 'e']) {
            Ok(p) => p,
            Err(e) => return Err(e),
        };
        let i = skip_ws(s, i);
        let i = match expect(s, i, ':') {
            Ok(p) => p,
            Err(e) => return Err(e),
        };
        let i = skip_ws(s, i);
        let (value, i) = match parse_value(s, i) {
            Ok(x) => x,
            Err(e) => return Err(e),
        };
        let mut i = skip_ws(s, i);
        if i < s.len() && s[i] == ';' {
            i = skip_ws(s, i + 1);
        }
        let i = match expect(s, i, '}') {
            Ok(p) => p,
            Err(e) => return Err(e),
        };
        Ok((Node::Declaration { id, value: Box::new(value) }, i))
    } else if c == '/' {
        let mut segs: Vec<Name> = Vec::new();
        let mut i = pos + 2;
        loop
            invariant
                pos < i <= s.len(),
                pos + 2 <= i,
                s@[pos as int] == '#',
                s@[pos + 1] == '/',
            decreases s.len() - i,
        {
            let (seg, j) = match read_name(s, i) {
                Ok(x) => x,
                Err(e) => return Err(e),
            };
            segs.push(seg);
            if j < s.len() && s[j] == '/' {
                i = j + 1;
            } else {
                proof {
                    lemma_ends(s@, pos as int, j as int);
                    assert(s@.subrange(pos as int, j as int)[1] == s@[pos + 1]);
                }
                return Ok((Node::PathReference(segs), j));
            }
        }
    } else {
        match read_name(s, pos + 1) {
            Ok((id, p)) => Ok((Node::Reference(id), p)),
            Err(e) => Err(e),
        }
    }
}

/// Whether `t` holds only whitespace outside `t[i..j]`.
pub open spec fn blank_outside(t: Seq<char>, i: int, j: int) -> bool {
    &&& 0 <= i <= j <= t.len()
    &&& forall|k: int| 0 <= k < i ==> is_space(#[trigger] t[k])
    &&& forall|k: int| j <= k < t.len() ==> is_space(#[trigger] t[k])
}

/// `n` was read from `t`: `t` is the text of one node, with whitespace around it.
pub open spec fn read_from(n: Node, t: Seq<char>) -> bool {
    exists|i: int, j: int| blank_outside(t, i, j) && token_ok(n, #[trigger] t.subrange(i, j))
}

/// A whole document: one value, with whitespace around it.
pub fn parse_document(s: &Vec<char>) -> (r: Result<Node, usize>)
    ensures
        r matches Ok(n) ==> read_from(n, s@),
        r matches Err(e) ==> e <= s.len(),
        scalar_token(s@) ==> r is Ok,
{
    let i = skip_ws(s, 0);
    proof {
        if scalar_token(s@) && i > 0 {
            if s.len() > 1 {
                assert(s@.skip(1)[0] == s@[1]);
            }
            assert(is_space(s@[0]));
        }
    }
    match parse_value(s, i) {
        Ok((n, j0)) => {
            let j = skip_ws(s, j0);
            if j == s.len() {
                proof {
                    assert(blank_outside(s@, i as int, j0 as int));
                    assert(token_ok(n, s@.subrange(i as int, j0 as int)));
                }
                Ok(n)
            } else {
                Err(j)
            }
        },
        Err(e) => Err(e),
    }
}

} // verus!
