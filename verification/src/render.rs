//! Rendering a scalar canonical value the way its JSON form reads: the
//! record keys of multi-row extraction are built from this.
use vstd::prelude::*;
use vstd::string::*;
use crate::text::{dec_of_i64, i64_to_dec};
use crate::values::{SpecValue, Value};

verus! {

/// The lower-case hex digit `d` (0 to 15).
pub open spec fn hex_char(d: int) -> char {
    if d == 0 { '0' } else if d == 1 { '1' } else if d == 2 { '2' } else if d == 3 { '3' }
    else if d == 4 { '4' } else if d == 5 { '5' } else if d == 6 { '6' } else if d == 7 { '7' }
    else if d == 8 { '8' } else if d == 9 { '9' } else if d == 10 { 'a' } else if d == 11 { 'b' }
    else if d == 12 { 'c' } else if d == 13 { 'd' } else if d == 14 { 'e' } else { 'f' }
}

/// How one character reads inside a JSON string literal.
pub open spec fn spec_escape(c: char) -> Seq<char> {
    if c == '"' {
        seq!['\\', '"']
    } else if c == '\\' {
        seq!['\\', '\\']
    } else if c == '\n' {
        seq!['\\', 'n']
    } else if c == '\r' {
        seq!['\\', 'r']
    } else if c == '\t' {
        seq!['\\', 't']
    } else if c == '\u{08}' {
        seq!['\\', 'b']
    } else if c == '\u{0C}' {
        seq!['\\', 'f']
    } else if (c as int) < 0x20 {
        seq!['\\', 'u', '0', '0', hex_char(((c as int) / 16) as int), hex_char(((c as int) % 16) as int)]
    } else {
        seq![c]
    }
}

/// A whole string escaped for a JSON literal.
pub open spec fn spec_escape_seq(s: Seq<char>) -> Seq<char>
    decreases s.len(),
{
    if s.len() == 0 {
        Seq::empty()
    } else {
        spec_escape(s[0]) + spec_escape_seq(s.drop_first())
    }
}

/// How a scalar value reads in JSON: the key form of a record id.
/// Arrays and objects have no scalar form.
pub open spec fn spec_json_scalar(v: SpecValue) -> Option<Seq<char>> {
    match v {
        SpecValue::Null => Some(seq!['n', 'u', 'l', 'l']),
        SpecValue::Bool(b) => Some(
            if b {
                seq!['t', 'r', 'u', 'e']
            } else {
                seq!['f', 'a', 'l', 's', 'e']
            },
        ),
        SpecValue::Int(i) => Some(dec_of_i64(i)),
        SpecValue::Num(r) => Some(r),
        SpecValue::Str(s) => Some(seq!['"'] + spec_escape_seq(s) + seq!['"']),
        _ => None,
    }
}

/// Append the escaped form of `c` to `out`.
fn push_escaped(out: &mut String, c: char, one: &str)
    requires
        one@ == seq![c],
    ensures
        final(out)@ == old(out)@ + spec_escape(c),
{
    let cu = c as u32;
    proof {
        reveal_strlit("\\\"");
        reveal_strlit("\\\\");
        reveal_strlit("\\n");
        reveal_strlit("\\r");
        reveal_strlit("\\t");
        reveal_strlit("\\u{08}");
        reveal_strlit("\\b");
        reveal_strlit("\\f");
        reveal_strlit("\\u00");
    }
    if c == '"' {
        out.append("\\\"");
        proof {
            assert(out@ =~= old(out)@ + spec_escape(c));
        }
    } else if c == '\\' {
        out.append("\\\\");
        proof {
            assert(out@ =~= old(out)@ + spec_escape(c));
        }
    } else if c == '\n' {
        out.append("\\n");
        proof {
            assert(out@ =~= old(out)@ + spec_escape(c));
        }
    } else if c == '\r' {
        out.append("\\r");
        proof {
            assert(out@ =~= old(out)@ + spec_escape(c));
        }
    } else if c == '\t' {
        out.append("\\t");
        proof {
            assert(out@ =~= old(out)@ + spec_escape(c));
        }
    } else if cu == 0x08 {
        out.append("\\b");
        proof {
            assert(out@ =~= old(out)@ + spec_escape(c));
        }
    } else if cu == 0x0C {
        out.append("\\f");
        proof {
            assert(out@ =~= old(out)@ + spec_escape(c));
        }
    } else if cu < 0x20 {
        out.append("\\u00");
        let hi: &str = hex_str(cu / 16);
        let lo: &str = hex_str(cu % 16);
        out.append(hi);
        out.append(lo);
        proof {
            assert(out@ =~= old(out)@ + spec_escape(c));
        }
    } else {
        out.append(one);
        proof {
            assert(out@ =~= old(out)@ + spec_escape(c));
        }
    }
}

/// The lower-case hex digit as a one-character string.
fn hex_str(d: u32) -> (r: &'static str)
    requires
        d < 16,
    ensures
        r@ == seq![hex_char(d as int)],
{
    proof {
        reveal_strlit("0");
        reveal_strlit("1");
        reveal_strlit("2");
        reveal_strlit("3");
        reveal_strlit("4");
        reveal_strlit("5");
        reveal_strlit("6");
        reveal_strlit("7");
        reveal_strlit("8");
        reveal_strlit("9");
        reveal_strlit("a");
        reveal_strlit("b");
        reveal_strlit("c");
        reveal_strlit("d");
        reveal_strlit("e");
        reveal_strlit("f");
    }
    let r: &'static str = if d == 0 { "0" } else if d == 1 { "1" } else if d == 2 { "2" }
    else if d == 3 { "3" } else if d == 4 { "4" } else if d == 5 { "5" } else if d == 6 { "6" }
    else if d == 7 { "7" } else if d == 8 { "8" } else if d == 9 { "9" } else if d == 10 { "a" }
    else if d == 11 { "b" } else if d == 12 { "c" } else if d == 13 { "d" } else if d == 14 { "e" }
    else { "f" };
    proof {
        assert(r@ =~= seq![hex_char(d as int)]);
    }
    r
}

/// Render a scalar value as its JSON text; arrays and objects yield `None`.
pub fn json_scalar_string(v: &Value) -> (r: Option<String>)
    ensures
        match r {
            Some(s) => spec_json_scalar(v.dv()) == Some(s@),
            None => spec_json_scalar(v.dv()) is None,
        },
{
    match v {
        Value::Null => {
            let s = "null".to_owned();
            proof {
                reveal_strlit("null");
                assert(s@ =~= seq!['n', 'u', 'l', 'l']);
            }
            Some(s)
        },
        Value::Bool(b) => {
            if *b {
                let s = "true".to_owned();
                proof {
                    reveal_strlit("true");
                    assert(s@ =~= seq!['t', 'r', 'u', 'e']);
                }
                Some(s)
            } else {
                let s = "false".to_owned();
                proof {
                    reveal_strlit("false");
                    assert(s@ =~= seq!['f', 'a', 'l', 's', 'e']);
                }
                Some(s)
            }
        },
        Value::Int(i) => Some(i64_to_dec(*i)),
        Value::Num(repr) => Some(repr.clone()),
        Value::Str(text) => {
            let mut out = "\"".to_owned();
            proof {
                reveal_strlit("\"");
                assert(out@ =~= seq!['"']);
                assert(text@.skip(0) =~= text@);
            }
            let len = text.unicode_len();
            let mut i: usize = 0;
            while i < len
                invariant
                    i <= len,
                    len == text@.len(),
                    out@ == seq!['"'] + spec_escape_seq(text@.take(i as int)),
                decreases len - i,
            {
                let c = text.get_char(i);
                let one = text.substring_char(i, i + 1);
                proof {
                    assert(one@ =~= seq![c]);
                }
                push_escaped(&mut out, c, one);
                proof {
                    lemma_escape_take(text@, i as int);
                }
                i = i + 1;
            }
            out.append("\"");
            proof {
                assert(text@.take(len as int) =~= text@);
                assert(out@ =~= seq!['"'] + spec_escape_seq(text@) + seq!['"']);
            }
            Some(out)
        },
        Value::Arr(_) => None,
        Value::Obj(_) => None,
    }
}

/// Escaping one more character extends the escaped prefix.
proof fn lemma_escape_take(s: Seq<char>, i: int)
    requires
        0 <= i < s.len(),
    ensures
        spec_escape_seq(s.take(i + 1)) == spec_escape_seq(s.take(i)) + spec_escape(s[i]),
    decreases i,
{
    if i == 0 {
        assert(s.take(1).drop_first() =~= Seq::<char>::empty());
        assert(s.take(0) =~= Seq::<char>::empty());
        assert(spec_escape_seq(Seq::<char>::empty()) =~= Seq::<char>::empty());
        assert(s.take(1)[0] == s[0]);
        assert(spec_escape(s[0]) + Seq::<char>::empty() =~= spec_escape(s[0]));
        assert(spec_escape_seq(s.take(1)) =~= spec_escape(s[0]));
        assert(spec_escape_seq(s.take(0)) + spec_escape(s[0]) =~= spec_escape(s[0]));
    } else {
        lemma_escape_take(s.drop_first(), i - 1);
        assert(s.take(i + 1).drop_first() =~= s.drop_first().take(i));
        assert(s.take(i).drop_first() =~= s.drop_first().take(i - 1));
        assert(s.take(i + 1)[0] == s[0]);
        assert(s.take(i)[0] == s[0]);
        assert(spec_escape_seq(s.take(i + 1)) == spec_escape(s[0]) + spec_escape_seq(
            s.drop_first().take(i),
        ));
        assert(spec_escape_seq(s.take(i)) == spec_escape(s[0]) + spec_escape_seq(
            s.drop_first().take(i - 1),
        ));
        assert(s.drop_first()[i - 1] == s[i]);
        assert((spec_escape(s[0]) + spec_escape_seq(s.drop_first().take(i - 1))) + spec_escape(
            s[i],
        ) =~= spec_escape(s[0]) + (spec_escape_seq(s.drop_first().take(i - 1)) + spec_escape(
            s[i],
        )));
    }
}

} // verus!
