use vstd::prelude::*;
use vstd::string::*;
use crate::stringify_json::{nesting, render, write_value};
use crate::types::Value;

verus! {

/// Relies on `String::push`: appends one character at the end.
#[verifier::external_body]
pub(crate) fn push_char(s: &mut String, c: char)
    ensures
        final(s)@ == old(s)@.push(c),
{
    s.push(c)
}

/// Relies on `str::chars`, collected into a vector: the characters in order.
#[verifier::external_body]
pub(crate) fn chars_of(s: &str) -> (r: Vec<char>)
    ensures
        r@ == s@,
{
    s.chars().collect()
}

/// Appends the characters of `s[from..to]` to `out`.
pub(crate) fn push_chars(out: &mut String, s: &Vec<char>, from: usize, to: usize)
    requires
        from <= to <= s.len(),
    ensures
        final(out)@ == old(out)@ + s@.subrange(from as int, to as int),
{
    let mut i: usize = from;
    while i < to
        invariant
            from <= i <= to <= s.len(),
            out@ == old(out)@ + s@.subrange(from as int, i as int),
        decreases to - i,
    {
        push_char(out, s[i]);
        i += 1;
        proof {
            assert(out@ =~= old(out)@ + s@.subrange(from as int, i as int));
        }
    }
}

/// Appends the characters of `s` to `out`.
pub(crate) fn push_string(out: &mut String, s: &String)
    ensures
        final(out)@ == old(out)@ + s@,
{
    out.append(s.as_str());
}

/// The character that an escape `\c` stands for, if `c` starts an escape.
pub open spec fn escape_target(c: char) -> Option<char> {
    if c == '"' {
        Some('"')
    } else if c == '\'' {
        Some('\'')
    } else if c == '`' {
        Some('`')
    } else if c == 'n' {
        Some('\n')
    } else if c == 't' {
        Some('\t')
    } else if c == 'r' {
        Some('\n')
    } else {
        None
    }
}

/// The text of a string literal's body with its escapes replaced, left to right;
/// a backslash that starts no escape stays as it is.
pub open spec fn unescape(s: Seq<char>) -> Seq<char>
    decreases s.len(),
{
    if s.len() == 0 {
        Seq::empty()
    } else if s.len() >= 2 && s[0] == '\\' && escape_target(s[1]) is Some {
        seq![escape_target(s[1])->0] + unescape(s.skip(2))
    } else {
        seq![s[0]] + unescape(s.skip(1))
    }
}

/// How one character is written inside a double-quoted literal.
pub open spec fn escape_char(c: char) -> Seq<char> {
    if c == '"' {
        seq!['\\', '"']
    } else if c == '\n' {
        seq!['\\', 'n']
    } else if c == '\t' {
        seq!['\\', 't']
    } else {
        seq![c]
    }
}

/// The body of a double-quoted literal that holds `s`.
pub open spec fn escape(s: Seq<char>) -> Seq<char>
    decreases s.len(),
{
    if s.len() == 0 {
        Seq::empty()
    } else {
        escape(s.drop_last()) + escape_char(s.last())
    }
}

proof fn lemma_escape_front(s: Seq<char>)
    requires
        s.len() > 0,
    ensures
        escape(s) == escape_char(s[0]) + escape(s.skip(1)),
    decreases s.len(),
{
    if s.len() == 1 {
        assert(s.drop_last() =~= Seq::<char>::empty());
        assert(s.skip(1) =~= Seq::<char>::empty());
        assert(escape(s) =~= escape_char(s[0]) + escape(s.skip(1)));
    } else {
        lemma_escape_front(s.drop_last());
        assert(s.skip(1).drop_last() =~= s.drop_last().skip(1));
        assert(s.skip(1).last() == s.last());
        assert(s.drop_last()[0] == s[0]);
        assert(escape(s) =~= escape_char(s[0]) + escape(s.skip(1)));
    }
}

/// Writing a text as a literal's body and reading the body back gives the
/// text again, for any text without a backslash.
pub proof fn lemma_unescape_escape(s: Seq<char>)
    requires
        forall|i: int| 0 <= i < s.len() ==> s[i] != '\\',
    ensures
        unescape(escape(s)) == s,
    decreases s.len(),
{
    if s.len() == 0 {
        assert(escape(s) =~= Seq::<char>::empty());
    } else {
        lemma_escape_front(s);
        let rest = s.skip(1);
        assert forall|i: int| 0 <= i < rest.len() implies rest[i] != '\\' by {
            assert(rest[i] == s[i + 1]);
        }
        lemma_unescape_escape(rest);
        let e = escape_char(s[0]) + escape(rest);
        let c = s[0];
        if c == '"' || c == '\n' || c == '\t' {
            assert(e.skip(2) =~= escape(rest));
        } else {
            assert(e.skip(1) =~= escape(rest));
        }
        assert(unescape(e) =~= seq![c] + rest);
        assert(seq![c] + rest =~= s);
    }
}

fn escape_target_exec(c: char) -> (r: Option<char>)
    ensures
        r == escape_target(c),
{
    if c == '"' {
        Some('"')
    } else if c == '\'' {
        Some('\'')
    } else if c == '`' {
        Some('`')
    } else if c == 'n' {
        Some('\n')
    } else if c == 't' {
        Some('\t')
    } else if c == 'r' {
        Some('\n')
    } else {
        None
    }
}

/// Appends `unescape(s)` to `out`.
pub(crate) fn push_unescaped(out: &mut String, s: &Vec<char>)
    ensures
        final(out)@ == old(out)@ + unescape(s@),
{
    let mut i: usize = 0;
    proof {
        assert(s@.skip(0) =~= s@);
    }
    while i < s.len()
        invariant
            i <= s.len(),
            out@ + unescape(s@.skip(i as int)) == old(out)@ + unescape(s@),
        decreases s.len() - i,
    {
        let ghost rest = s@.skip(i as int);
        let mut step: usize = 1;
        if i + 1 < s.len() && s[i] == '\\' {
            if let Some(c) = escape_target_exec(s[i + 1]) {
                push_char(out, c);
                step = 2;
            }
        }
        if step == 1 {
            push_char(out, s[i]);
        }
        proof {
            assert(rest.skip(step as int) =~= s@.skip(i + step));
            assert(rest[0] == s@[i as int]);
            if i + 1 < s.len() {
                assert(rest[1] == s@[i + 1]);
            }
            assert(out@ + unescape(s@.skip(i + step)) =~= old(out)@ + unescape(s@));
        }
        i += step;
    }
    proof {
        assert(s@.skip(i as int) =~= Seq::<char>::empty());
        assert(out@ =~= old(out)@ + unescape(s@));
    }
}

/// Appends `escape(s)` to `out`.
pub(crate) fn push_escaped(out: &mut String, s: &String)
    ensures
        final(out)@ == old(out)@ + escape(s@),
{
    let cs = chars_of(s.as_str());
    let mut i: usize = 0;
    while i < cs.len()
        invariant
            i <= cs.len(),
            cs@ == s@,
            out@ == old(out)@ + escape(cs@.subrange(0, i as int)),
        decreases cs.len() - i,
    {
        let c = cs[i];
        if c == '"' {
            push_char(out, '\\');
            push_char(out, '"');
        } else if c == '\n' {
            push_char(out, '\\');
            push_char(out, 'n');
        } else if c == '\t' {
            push_char(out, '\\');
            push_char(out, 't');
        } else {
            push_char(out, c);
        }
        proof {
            assert(cs@.subrange(0, i + 1).drop_last() =~= cs@.subrange(0, i as int));
            assert(out@ =~= old(out)@ + escape(cs@.subrange(0, i + 1)));
        }
        i += 1;
    }
    proof {
        assert(cs@.subrange(0, i as int) =~= s@);
    }
}

/// Replaces the escapes of a literal's body (`\"`, `\'`, `` \` ``, `\n`, `\t`,
/// and `\r`, which stands for a newline) by the characters they stand for.
pub fn sanitize_string(str: String) -> (r: String)
    ensures
        r@ == unescape(str@),
{
    let cs = chars_of(str.as_str());
    let mut out = String::new();
    push_unescaped(&mut out, &cs);
    proof {
        assert(out@ =~= unescape(str@));
    }
    out
}

} // verus!

verus! {

/// Renders `value` as text (see `stringify_json::stringify`).
pub fn stringify_value(value: Value, ident: usize, minify: bool) -> (r: String)
    requires
        minify || ident + 2 * nesting(value@) <= usize::MAX,
    ensures
        r@ == render(value@, ident as nat, minify),
{
    let mut out = String::new();
    write_value(&mut out, &value, ident, minify);
    proof {
        assert(out@ =~= render(value@, ident as nat, minify));
    }
    out
}

} // verus!
