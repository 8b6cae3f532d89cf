//! Reading a JSON string: borrowed from the input when it holds no escape,
//! owned otherwise.
use vstd::prelude::*;
use vstd::string::*;
use vstd::utf8::*;
use std::borrow::Cow;
use crate::cursor::{lemma_stop_boundary, Deserializer};
use crate::error::{expect_chars_1, is_unexpected_after, SyntaxError};
use crate::grammar::{
    byte_at, escaped, has_escape, is_escape_letter, lemma_skip_ws, skip_ws, string_scan,
    string_text,
};
use crate::text::{lemma_encode_ascii, lemma_encode_concat};

verus! {

broadcast use vstd::seq::group_seq_axioms, lemma_skip_ws;

/// The text that an escape letter stands for.
fn escape_text(e: u8) -> (r: &'static str)
    requires
        is_escape_letter(e),
    ensures
        encode_utf8(r@) == seq![escaped(e)],
{
    if e == 0x62 {
        proof {
            reveal_strlit("\u{8}");
            assert("\u{8}"@ =~= seq!['\u{8}']);
            lemma_encode_ascii('\u{8}');
            assert(('\u{8}' as u8) == 0x08u8);
        }
        "\u{8}"
    } else if e == 0x66 {
        proof {
            reveal_strlit("\u{c}");
            assert("\u{c}"@ =~= seq!['\u{c}']);
            lemma_encode_ascii('\u{c}');
            assert(('\u{c}' as u8) == 0x0Cu8);
        }
        "\u{c}"
    } else if e == 0x6E {
        proof {
            reveal_strlit("\n");
            assert("\n"@ =~= seq!['\n']);
            lemma_encode_ascii('\n');
            assert(('\n' as u8) == 0x0Au8);
        }
        "\n"
    } else if e == 0x72 {
        proof {
            reveal_strlit("\r");
            assert("\r"@ =~= seq!['\r']);
            lemma_encode_ascii('\r');
            assert(('\r' as u8) == 0x0Du8);
        }
        "\r"
    } else if e == 0x74 {
        proof {
            reveal_strlit("\t");
            assert("\t"@ =~= seq!['\t']);
            lemma_encode_ascii('\t');
            assert(('\t' as u8) == 0x09u8);
        }
        "\t"
    } else if e == 0x22 {
        proof {
            reveal_strlit("\"");
            assert("\""@ =~= seq!['"']);
            lemma_encode_ascii('"');
            assert(('"' as u8) == 0x22u8);
        }
        "\""
    } else if e == 0x5C {
        proof {
            reveal_strlit("\\");
            assert("\\"@ =~= seq!['\\']);
            lemma_encode_ascii('\\');
            assert(('\\' as u8) == 0x5Cu8);
        }
        "\\"
    } else {
        proof {
            reveal_strlit("/");
            assert("/"@ =~= seq!['/']);
            lemma_encode_ascii('/');
            assert(('/' as u8) == 0x2Fu8);
        }
        "/"
    }
}

/// The bytes of the text copied so far, if any.
spec fn owned_bytes(owned: Option<String>) -> Seq<u8> {
    match owned {
        Some(o) => encode_utf8(o@),
        None => Seq::empty(),
    }
}

/// What reading a string from offset `p` (whitespace first) gives: the
/// opening quote, then the body as `string_scan` describes it.
pub open spec fn string_read_ok(b: Seq<u8>, p: int) -> bool {
    let q = skip_ws(b, p);
    byte_at(b, q) == Some(0x22u8) && string_scan(b, q + 1) is Ok
}

/// Reads a string whose opening quote follows whitespace at the cursor.
///
/// On success the cursor stands just past the closing quote, the text is
/// the body with its escapes replaced, and it is borrowed from the input
/// exactly when the body holds no escape; then its bytes are those between
/// the quotes.
#[verifier::rlimit(30)]
pub fn read_string<'s>(d: &mut Deserializer<'s>) -> (r: Result<Cow<'s, str>, SyntaxError>)
    requires
        old(d).wf(),
    ensures
        final(d).wf(),
        final(d).text() == old(d).text(),
        ({
            let b = old(d).text();
            let q = skip_ws(b, old(d).pos());
            match r {
                Ok(s) => {
                    &&& string_read_ok(b, old(d).pos())
                    &&& final(d).pos() == string_scan(b, q + 1)->Ok_0
                    &&& encode_utf8(s@) == string_text(b, q + 1)
                    &&& (s is Borrowed <==> !has_escape(b, q + 1))
                    &&& (s is Borrowed ==> encode_utf8(s@) == b.subrange(
                        q + 1,
                        final(d).pos() - 1,
                    ))
                },
                Err(e) => {
                    &&& !string_read_ok(b, old(d).pos())
                    &&& byte_at(b, q) != Some(0x22u8) ==> is_unexpected_after(e, b, q, seq!['"'])
                    &&& byte_at(b, q) == Some(0x22u8) ==> string_scan(b, q + 1) == Err::<
                        int,
                        SyntaxError,
                    >(e)
                },
            }
        }),
{
    let ghost b = d.text();
    d.skip_whitespace();
    let q = d.consumed();
    let n = d.len();
    if d.peek() != Some(0x22u8) {
        return Err(d.unexpected_after(q, expect_chars_1('"')));
    }
    let start = q + 1;
    proof {
        lemma_stop_boundary(b, start as int);
    }
    let mut i = start;
    let mut run = start;
    let mut owned: Option<String> = None;
    loop
        invariant
            d.wf(),
            d.text() == b,
            b == old(d).text(),
            q == skip_ws(old(d).text(), old(d).pos()),
            n == b.len(),
            d.pos() == q,
            byte_at(b, q as int) == Some(0x22u8),
            start == q + 1,
            start <= run <= i <= n,
            is_char_boundary(b, run as int),
            string_scan(b, i as int) == string_scan(b, start as int),
            owned is None ==> run == start && has_escape(b, i as int) == has_escape(
                b,
                start as int,
            ),
            owned is Some ==> has_escape(b, start as int),
            string_text(b, start as int) == owned_bytes(owned) + b.subrange(run as int, i as int) + string_text(b, i as int),
        decreases n - i,
    {
        if i >= n {
            return Err(SyntaxError::StringUnterminated);
        }
        let c = d.byte(i).unwrap();
        if c == 0x22 {
            proof {
                lemma_stop_boundary(b, i as int);
            }
            proof {
                lemma_stop_boundary(b, i + 1);
            }
            let body = d.slice(run, i);
            d.advance_to(i + 1);
            match owned {
                None => {
                    proof {
                        assert(b.subrange(run as int, i as int) + Seq::<u8>::empty()
                            =~= b.subrange(run as int, i as int));
                        assert(Seq::<u8>::empty() + b.subrange(run as int, i as int)
                            =~= b.subrange(run as int, i as int));
                    }
                    return Ok(Cow::Borrowed(body));
                },
                Some(mut o) => {
                    let ghost before = o@;
                    o.append(body);
                    proof {
                        lemma_encode_concat(before, body@);
                        assert(encode_utf8(o@) =~= encode_utf8(before) + b.subrange(
                            run as int,
                            i as int,
                        ));
                        assert(encode_utf8(before) + b.subrange(run as int, i as int)
                            + Seq::<u8>::empty() =~= encode_utf8(o@));
                    }
                    return Ok(Cow::Owned(o));
                },
            }
        } else if c == 0x5C {
            if i + 1 >= n {
                return Err(SyntaxError::StringUnterminated);
            }
            let e = d.byte(i + 1).unwrap();
            proof {
                lemma_stop_boundary(b, i as int);
                lemma_stop_boundary(b, i + 1);
            }
            if !(e == 0x22 || e == 0x5C || e == 0x2F || e == 0x62 || e == 0x66 || e == 0x6E
                || e == 0x72 || e == 0x74) {
                return Err(SyntaxError::StringUnexpectedEscape(d.char_at(i + 1).unwrap()));
            }
            let body = d.slice(run, i);
            let mut o = match owned {
                Some(o) => o,
                None => String::new(),
            };
            let ghost before = o@;
            o.append(body);
            let ghost middle = o@;
            let lit = escape_text(e);
            o.append(lit);
            proof {
                lemma_encode_concat(before, body@);
                lemma_encode_concat(middle, lit@);
                lemma_stop_boundary(b, i + 2);
                assert(string_text(b, i as int) =~= seq![escaped(e)] + string_text(
                    b,
                    i + 2,
                ));
                assert(encode_utf8(o@) =~= encode_utf8(before) + b.subrange(run as int, i as int)
                    + seq![escaped(e)]);
                assert(string_text(b, start as int) =~= encode_utf8(o@) + b.subrange(
                    i + 2,
                    i + 2,
                ) + string_text(b, i + 2));
            }
            owned = Some(o);
            i = i + 2;
            run = i;
        } else if c < 0x20 {
            return Err(SyntaxError::StringUnexpectedControlChar);
        } else {
            proof {
                assert(string_text(b, i as int) =~= seq![c] + string_text(b, i + 1));
                assert(b.subrange(run as int, i + 1) =~= b.subrange(run as int, i as int) + seq![
                    c,
                ]);
                let pre = owned_bytes(owned);
                assert(pre + b.subrange(run as int, i as int) + string_text(b, i as int) =~= pre
                    + b.subrange(run as int, i + 1) + string_text(b, i + 1));
            }
            i = i + 1;
        }
    }
}

} // verus!
