pub mod grammar;
pub mod parse;
pub mod tree;

use vstd::prelude::*;
use vstd::string::*;
use crate::number::{digits_of, push_digits};
use crate::parser::grammar::{
    infinity_word, is_hex_digit, parse_document, read_from, scalar_token, token_ok,
};
use crate::number::hex_literal;
use crate::parser::parse::{document_value, is_plain, lemma_document_plain, to_hashmap};
use crate::parser::tree::Node;
use crate::types::{Value, ValueModel};
use crate::utils::chars_of;

verus! {

/// Parses an FSON document and resolves its references. The value is that of
/// a syntax tree read from the text, and holds nothing left to resolve. A
/// document that does not match the grammar gives an error that names the
/// character where reading stopped.
pub fn parse(json: String) -> (r: Result<Value, String>)
    ensures
        r matches Ok(v) ==> is_plain(v@) && exists|n: Node|
            read_from(n, json@) && v@ == document_value(n),
        r matches Err(msg) ==> msg@.len() > 0,
        scalar_token(json@) ==> r is Ok,
{
    let cs = chars_of(json.as_str());
    match parse_document(&cs) {
        Ok(tree) => {
            proof {
                lemma_document_plain(tree);
            }
            Ok(to_hashmap(&tree))
        },
        Err(p) => {
            let mut msg = String::new();
            msg.append("syntax error at character ");
            push_digits(&mut msg, p as u64);
            proof {
                lemma_digits_nonempty(p as nat);
            }
            Err(msg)
        },
    }
}

/// The tokens `Infinity`, `-Infinity` and `NaN`, as a whole document, read as
/// their sentinels.
pub proof fn lemma_special_literals_read(n: Node, t: Seq<char>)
    requires
        read_from(n, t),
        t == infinity_word() || t == seq!['-'] + infinity_word() || t == seq!['N', 'a', 'N'],
    ensures
        t == infinity_word() ==> document_value(n) == ValueModel::Infinity,
        t == seq!['-'] + infinity_word() ==> document_value(n) == ValueModel::NegativeInfinity,
        t == seq!['N', 'a', 'N'] ==> document_value(n) == ValueModel::NaN,
{
    let (i, j) = choose|i: int, j: int|
        crate::parser::grammar::blank_outside(t, i, j) && token_ok(n, #[trigger] t.subrange(i, j));
    assert(!crate::parser::grammar::is_space(t[0]));
    assert(!crate::parser::grammar::is_space(t[t.len() - 1]));
    assert(t.subrange(i, j) =~= t);
    match n {
        Node::Decimal { negative, digits, fraction_len } => {
            if !negative {
                assert(t[0] == digits@[0]);
            } else {
                assert(t[1] == digits@[0]);
            }
        },
        Node::Infinity(negative) => {
            if negative {
                assert(t[0] == '-');
            } else {
                assert(t.len() == 8);
            }
        },
        _ => {},
    }
}

/// A `0x` literal, as a whole document, reads as the number its hexadecimal
/// digits write.
#[verifier::rlimit(60)]
pub proof fn lemma_hex_read(n: Node, t: Seq<char>, h: Seq<char>)
    requires
        read_from(n, t),
        h.len() > 0,
        forall|k: int| 0 <= k < h.len() ==> is_hex_digit(#[trigger] h[k]),
        t == seq!['0', 'x'] + h,
    ensures
        document_value(n) == ValueModel::Number(hex_literal(h)),
{
    let (i, j) = choose|i: int, j: int|
        crate::parser::grammar::blank_outside(t, i, j) && token_ok(n, #[trigger] t.subrange(i, j));
    assert(!crate::parser::grammar::is_space(t[0]));
    assert(t[t.len() - 1] == h[h.len() - 1]);
    assert(!crate::parser::grammar::is_space(t[t.len() - 1]));
    assert(t.subrange(i, j) =~= t);
    match n {
        Node::Decimal { negative, digits, fraction_len } => {
            let w = digits.len() - fraction_len;
            if w >= 2 {
                assert(t[1] == digits@[1]);
            } else {
                assert(t[1] == '.');
            }
        },
        Node::Hex(d) => {
            assert(d@.len() == h.len());
            assert forall|k: int| 0 <= k < h.len() implies d@[k] == h[k] by {
                assert(t[k + 2] == d@[k]);
                assert(t[k + 2] == h[k]);
            }
            assert(d@ =~= h);
        },
        Node::Infinity(negative) => {
            if negative {
                assert(t[0] == '-');
            } else {
                assert(t[0] == 'I');
            }
        },
        _ => {},
    }
}

proof fn lemma_digits_nonempty(n: nat)
    ensures
        digits_of(n).len() > 0,
    decreases n,
{
    if n >= 10 {
        lemma_digits_nonempty(n / 10);
    }
}

} // verus!
