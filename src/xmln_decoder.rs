//! The XMLN decoder: tokens back to XML text.

use vstd::prelude::*;

use crate::cursor::{
    consume_until_space, cursor_peeked, cursor_rest, lemma_until_space, multipeek_chars,
    next_char, peek_char, reset_peek, until_space,
};
use crate::digits::{all_digits, is_digit, parse_number, parsed_number};
use crate::symbol_table::{XmlNSymbolTable, symbol_for};
use crate::tag_table::{XmlNTagTable, names_of, tag_for};
use crate::text::{chars_of, string_of};
use crate::xflate::XFlateError;

verus! {

/// The space-separated tokens of an XMLN text; runs of spaces separate like one.
pub open spec fn tokens_of(s: Seq<char>) -> Seq<Seq<char>>
    decreases s.len(),
    via tokens_of_decreases
{
    if s.len() == 0 {
        Seq::empty()
    } else if s[0] == ' ' {
        tokens_of(s.drop_first())
    } else {
        seq![until_space(s)] + tokens_of(s.skip(until_space(s).len() as int))
    }
}

#[via_fn]
proof fn tokens_of_decreases(s: Seq<char>) {
    lemma_until_space(s);
}

/// The name that the decimal code in `digits` stands for.
pub open spec fn tag_name_of(digits: Seq<char>, tags: Seq<Seq<char>>) -> Option<Seq<char>> {
    match parsed_number(digits, 65535) {
        Some(code) => tag_for(tags, code),
        None => None,
    }
}

/// Whether a token is text: digits, other than the lone closing `0`.
pub open spec fn is_text_token(t: Seq<char>) -> bool {
    t.len() > 0 && all_digits(t) && t != seq!['0']
}

/// The characters whose `w`-digit codes make up `t`.
pub open spec fn text_of(t: Seq<char>, syms: Seq<char>, w: nat) -> Option<Seq<char>>
    decreases t.len(),
{
    if w == 0 || t.len() < w && t.len() > 0 {
        None
    } else if t.len() == 0 {
        Some(Seq::empty())
    } else {
        match symbol_for(syms, t.take(w as int)) {
            None => None,
            Some(c) => match text_of(t.skip(w as int), syms, w) {
                None => None,
                Some(rest) => Some(seq![c] + rest),
            },
        }
    }
}

/// `front` followed by what `rest` holds, if anything.
pub open spec fn prepend(front: Seq<char>, rest: Option<Seq<char>>) -> Option<Seq<char>> {
    match rest {
        Some(r) => Some(front + r),
        None => None,
    }
}

/// Whether the token at `j` names an attribute.
pub open spec fn next_is_attr(toks: Seq<Seq<char>>, j: int) -> bool {
    0 <= j < toks.len() && toks[j].len() > 0 && toks[j][0] == 'A'
}

/// The `>` that ends a start tag, unless an attribute comes next.
pub open spec fn tag_end(toks: Seq<Seq<char>>, j: int) -> Seq<char> {
    if next_is_attr(toks, j) {
        Seq::empty()
    } else {
        seq!['>']
    }
}

/// ` name="value"`.
pub open spec fn attr_text(name: Seq<char>, value: Seq<char>) -> Seq<char> {
    seq![' '] + name + seq!['=', '"'] + value + seq!['"']
}

/// The XML text of the tokens from `i` on, with `stack` the open elements.
pub open spec fn decode_from(
    toks: Seq<Seq<char>>,
    i: int,
    stack: Seq<Seq<char>>,
    syms: Seq<char>,
    w: nat,
    tags: Seq<Seq<char>>,
) -> Option<Seq<char>>
    decreases toks.len() - i,
{
    if i < 0 || i >= toks.len() {
        Some(Seq::empty())
    } else {
        let t = toks[i];
        if t.len() == 0 {
            None
        } else if t[0] == 'T' {
            match tag_name_of(t.drop_first(), tags) {
                None => None,
                Some(name) => prepend(
                    seq!['<'] + name + tag_end(toks, i + 1),
                    decode_from(toks, i + 1, stack.push(name), syms, w, tags),
                ),
            }
        } else if t[0] == 'A' {
            match tag_name_of(t.drop_first(), tags) {
                None => None,
                Some(name) => if i + 1 < toks.len() && is_text_token(toks[i + 1]) {
                    match text_of(toks[i + 1], syms, w) {
                        None => None,
                        Some(v) => prepend(
                            attr_text(name, v) + tag_end(toks, i + 2),
                            decode_from(toks, i + 2, stack, syms, w, tags),
                        ),
                    }
                } else {
                    prepend(
                        attr_text(name, Seq::empty()) + tag_end(toks, i + 1),
                        decode_from(toks, i + 1, stack, syms, w, tags),
                    )
                },
            }
        } else if t == seq!['0'] {
            if stack.len() == 0 {
                None
            } else {
                prepend(
                    seq!['<', '/'] + stack.last() + seq!['>'],
                    decode_from(toks, i + 1, stack.drop_last(), syms, w, tags),
                )
            }
        } else if is_text_token(t) {
            match text_of(t, syms, w) {
                None => None,
                Some(v) => prepend(v, decode_from(toks, i + 1, stack, syms, w, tags)),
            }
        } else {
            None
        }
    }
}

/// The XML text of an XMLN text under the given tables, or `None` if it is malformed.
pub open spec fn decoded_xmln(s: Seq<char>, syms: Seq<char>, w: nat, tags: Seq<Seq<char>>) -> Option<
    Seq<char>,
> {
    decode_from(tokens_of(s), 0, Seq::empty(), syms, w, tags)
}

/// Splits an XMLN text into its tokens.
fn split_tokens(xmln: &str) -> (r: Vec<String>)
    ensures
        names_of(r@) == tokens_of(xmln@),
{
    let mut chars = multipeek_chars(chars_of(xmln));
    let mut tokens: Vec<String> = Vec::new();
    loop
        invariant
            cursor_peeked(chars) == 0,
            tokens_of(xmln@) == names_of(tokens@) + tokens_of(cursor_rest(chars)),
        ensures
            tokens_of(xmln@) == names_of(tokens@),
        decreases cursor_rest(chars).len(),
    {
        let ghost rest = cursor_rest(chars);
        match peek_char(&mut chars) {
            None => {
                proof {
                    assert(cursor_rest(chars).len() == 0);
                    assert(tokens_of(cursor_rest(chars)) == Seq::<Seq<char>>::empty());
                    assert(names_of(tokens@) + Seq::<Seq<char>>::empty() == names_of(tokens@));
                }
                break;
            },
            Some(c) => {
                if c == ' ' {
                    next_char(&mut chars);
                } else {
                    reset_peek(&mut chars);
                    let token = consume_until_space(&mut chars);
                    proof {
                        lemma_until_space(rest);
                        assert(names_of(tokens@.push(token)) == names_of(tokens@).push(token@));
                        assert(tokens_of(rest) == seq![token@] + tokens_of(cursor_rest(chars)));
                        assert(names_of(tokens@).push(token@) + tokens_of(cursor_rest(chars))
                            =~= names_of(tokens@) + (seq![token@] + tokens_of(cursor_rest(chars))));
                    }
                    tokens.push(token);
                }
            },
        }
    }
    tokens
}

/// Whether the characters are a text token.
fn text_token(t: &Vec<char>) -> (r: bool)
    ensures
        r == is_text_token(t@),
{
    if t.len() == 0 || (t.len() == 1 && t[0] == '0') {
        proof {
            if t@.len() == 1 && t@[0] == '0' {
                assert(t@ =~= seq!['0']);
            }
        }
        return false;
    }
    let mut i: usize = 0;
    while i < t.len()
        invariant
            i <= t@.len(),
            forall|j: int| 0 <= j < i ==> is_digit(#[trigger] t@[j]),
        decreases t@.len() - i,
    {
        if !('0' <= t[i] && t[i] <= '9') {
            return false;
        }
        i = i + 1;
    }
    proof {
        if t@ == seq!['0'] {
            assert(t@.len() == 1 && t@[0] == '0');
        }
    }
    true
}

/// Decodes a text token, `code_size` digits per character.
fn decode_text<S: XmlNSymbolTable>(t: &Vec<char>, sym_table: &S) -> (r: Option<Vec<char>>)
    requires
        sym_table.wf(),
    ensures
        r matches Some(v) ==> text_of(t@, sym_table.symbols(), sym_table.width()) == Some(v@),
        r is None ==> text_of(t@, sym_table.symbols(), sym_table.width()) is None,
{
    let w = sym_table.code_size() as usize;
    let ghost syms = sym_table.symbols();
    if w == 0 {
        return None;
    }
    let mut out: Vec<char> = Vec::new();
    let mut pos: usize = 0;
    proof {
        assert(t@.skip(0) == t@);
    }
    while pos < t.len()
        invariant
            pos <= t@.len(),
            w > 0,
            w == sym_table.width(),
            syms == sym_table.symbols(),
            sym_table.wf(),
            text_of(t@, syms, w as nat) == prepend(out@, text_of(t@.skip(pos as int), syms, w as nat)),
        decreases t@.len() - pos,
    {
        let ghost rest = t@.skip(pos as int);
        if t.len() - pos < w {
            return None;
        }
        let mut chunk: Vec<char> = Vec::new();
        let mut k: usize = 0;
        let n = t.len();
        while k < w
            invariant
                k <= w,
                pos + w <= t@.len(),
                t@.len() <= usize::MAX,
                chunk@ == t@.subrange(pos as int, pos + k),
            decreases w - k,
        {
            chunk.push(t[pos + k]);
            proof {
                assert(chunk@ =~= t@.subrange(pos as int, pos + k + 1));
            }
            k = k + 1;
        }
        let code = string_of(chunk.as_slice());
        proof {
            assert(rest.take(w as int) =~= chunk@);
            assert(rest.skip(w as int) =~= t@.skip(pos + w));
        }
        match sym_table.decode(code.as_str()) {
            Some(c) => {
                proof {
                    assert(out@.push(c) =~= out@ + seq![c]);
                    match text_of(t@.skip(pos + w), syms, w as nat) {
                        Some(r) => {
                            assert(out@ + (seq![c] + r) =~= out@.push(c) + r);
                        },
                        None => {},
                    }
                }
                out.push(c);
            },
            None => {
                return None;
            },
        }
        pos = pos + w;
    }
    proof {
        assert(t@.skip(pos as int) =~= Seq::<char>::empty());
        assert(out@ + Seq::<char>::empty() == out@);
    }
    Some(out)
}

pub(crate) proof fn lemma_prepend_twice(a: Seq<char>, b: Seq<char>, o: Option<Seq<char>>)
    ensures
        prepend(a, prepend(b, o)) == prepend(a + b, o),
{
    match o {
        Some(r) => {
            assert(a + (b + r) =~= a + b + r);
        },
        None => {},
    }
}

/// The name that the code after a token's first character stands for.
fn tag_name<T: XmlNTagTable>(t: &Vec<char>, tag_table: &T) -> (r: Option<String>)
    requires
        tag_table.wf(),
        t@.len() > 0,
    ensures
        r matches Some(n) ==> tag_name_of(t@.drop_first(), tag_table.tags()) == Some(n@),
        r is None ==> tag_name_of(t@.drop_first(), tag_table.tags()) is None,
{
    proof {
        assert(t@.skip(1) == t@.drop_first());
    }
    match parse_number(t.as_slice(), 1, 65535) {
        Some(code) => match tag_table.decode(code as u16) {
            Some(name) => Some(name.to_owned()),
            None => None,
        },
        None => None,
    }
}

/// Whether the token at `j` names an attribute.
fn next_attr(tokens: &Vec<String>, j: usize) -> (r: bool)
    ensures
        r == next_is_attr(names_of(tokens@), j as int),
{
    if j < tokens.len() {
        let c = chars_of(tokens[j].as_str());
        c.len() > 0 && c[0] == 'A'
    } else {
        false
    }
}

/// Appends `>` unless an attribute comes next.
fn push_tag_end(out: &mut Vec<char>, tokens: &Vec<String>, j: usize)
    ensures
        final(out)@ == old(out)@ + tag_end(names_of(tokens@), j as int),
{
    if !next_attr(tokens, j) {
        out.push('>');
    }
    proof {
        assert(out@ =~= old(out)@ + tag_end(names_of(tokens@), j as int));
    }
}

/// Appends ` name="value"`.
fn push_attr(out: &mut Vec<char>, name: &String, value: &Vec<char>)
    ensures
        final(out)@ == old(out)@ + attr_text(name@, value@),
{
    out.push(' ');
    let mut n = chars_of(name.as_str());
    out.append(&mut n);
    out.push('=');
    out.push('"');
    let mut v = value.clone();
    out.append(&mut v);
    out.push('"');
    proof {
        assert(out@ =~= old(out)@ + attr_text(name@, value@));
    }
}

/// Decodes XMLN text into XML text, with the names and characters of the two
/// tables; the tables are only read.
pub fn decode_xmln<S: XmlNSymbolTable, T: XmlNTagTable>(
    xmln: &str,
    sym_table: &mut S,
    tag_table: &mut T,
) -> (r: Result<String, XFlateError>)
    requires
        old(sym_table).wf(),
        old(tag_table).wf(),
    ensures
        *final(sym_table) == *old(sym_table),
        *final(tag_table) == *old(tag_table),
        decoded_xmln(xmln@, old(sym_table).symbols(), old(sym_table).width(), old(tag_table).tags())
            matches Some(v) ==> (r matches Ok(s) && s@ == v),
        decoded_xmln(
            xmln@,
            old(sym_table).symbols(),
            old(sym_table).width(),
            old(tag_table).tags(),
        ) is None ==> r matches Err(XFlateError::XmlNError(_)),
{
    let tokens = split_tokens(xmln);
    let ghost toks = names_of(tokens@);
    let ghost syms = sym_table.symbols();
    let ghost w = sym_table.width();
    let ghost tags = tag_table.tags();
    let ghost whole = decode_from(toks, 0, Seq::empty(), syms, w, tags);
    let mut out: Vec<char> = Vec::new();
    let mut stack: Vec<String> = Vec::new();
    let mut i: usize = 0;
    proof {
        assert(names_of(stack@) =~= Seq::<Seq<char>>::empty());
        assert(Seq::<char>::empty() + Seq::<char>::empty() == Seq::<char>::empty());
        match whole {
            Some(v) => {
                assert(Seq::<char>::empty() + v =~= v);
            },
            None => {},
        }
    }
    while i < tokens.len()
        invariant
            i <= tokens@.len(),
            toks == names_of(tokens@),
            toks == tokens_of(xmln@),
            sym_table.wf(),
            tag_table.wf(),
            *sym_table == *old(sym_table),
            *tag_table == *old(tag_table),
            syms == sym_table.symbols(),
            w == sym_table.width(),
            tags == tag_table.tags(),
            whole == decode_from(toks, 0, Seq::empty(), syms, w, tags),
            whole == prepend(out@, decode_from(toks, i as int, names_of(stack@), syms, w, tags)),
        decreases tokens@.len() - i,
    {
        let ghost st = names_of(stack@);
        let t = chars_of(tokens[i].as_str());
        proof {
            assert(toks[i as int] == t@);
        }
        if t.len() == 0 {
            return Err(XFlateError::XmlNError("empty token".to_string()));
        }
        let ghost before = out@;
        if t[0] == 'T' {
            let name = match tag_name(&t, tag_table) {
                Some(n) => n,
                None => {
                    return Err(XFlateError::XmlNError("unknown tag code".to_string()));
                },
            };
            out.push('<');
            let mut n = chars_of(name.as_str());
            out.append(&mut n);
            push_tag_end(&mut out, &tokens, i + 1);
            let ghost piece = seq!['<'] + name@ + tag_end(toks, i + 1);
            proof {
                assert(out@ =~= before + piece);
                lemma_prepend_twice(
                    before,
                    piece,
                    decode_from(toks, i + 1, st.push(name@), syms, w, tags),
                );
            }
            let ghost nm = name@;
            stack.push(name);
            proof {
                assert(names_of(stack@) =~= st.push(nm));
            }
            i = i + 1;
        } else if t[0] == 'A' {
            let name = match tag_name(&t, tag_table) {
                Some(n) => n,
                None => {
                    return Err(XFlateError::XmlNError("unknown attribute code".to_string()));
                },
            };
            let has_value = if i + 1 < tokens.len() {
                let v = chars_of(tokens[i + 1].as_str());
                proof {
                    assert(toks[i + 1] == v@);
                }
                text_token(&v)
            } else {
                false
            };
            if has_value {
                let v = chars_of(tokens[i + 1].as_str());
                proof {
                    assert(toks[i + 1] == v@);
                }
                let value = match decode_text(&v, sym_table) {
                    Some(value) => value,
                    None => {
                        return Err(XFlateError::XmlNError("unknown symbol code".to_string()));
                    },
                };
                push_attr(&mut out, &name, &value);
                push_tag_end(&mut out, &tokens, i + 2);
                let ghost piece = attr_text(name@, value@) + tag_end(toks, i + 2);
                proof {
                    assert(out@ =~= before + piece);
                    lemma_prepend_twice(before, piece, decode_from(toks, i + 2, st, syms, w, tags));
                }
                i = i + 2;
            } else {
                let empty: Vec<char> = Vec::new();
                push_attr(&mut out, &name, &empty);
                push_tag_end(&mut out, &tokens, i + 1);
                let ghost piece = attr_text(name@, Seq::empty()) + tag_end(toks, i + 1);
                proof {
                    assert(empty@ =~= Seq::<char>::empty());
                    assert(out@ =~= before + piece);
                    lemma_prepend_twice(before, piece, decode_from(toks, i + 1, st, syms, w, tags));
                }
                i = i + 1;
            }
        } else if t.len() == 1 && t[0] == '0' {
            proof {
                assert(t@ =~= seq!['0']);
            }
            let name = match stack.pop() {
                Some(n) => n,
                None => {
                    return Err(XFlateError::XmlNError("unmatched closing tag".to_string()));
                },
            };
            out.push('<');
            out.push('/');
            let mut n = chars_of(name.as_str());
            out.append(&mut n);
            out.push('>');
            let ghost piece = seq!['<', '/'] + st.last() + seq!['>'];
            proof {
                assert(names_of(stack@) =~= st.drop_last());
                assert(name@ == st.last());
                assert(out@ =~= before + piece);
                lemma_prepend_twice(before, piece, decode_from(toks, i + 1, st.drop_last(), syms, w, tags));
            }
            i = i + 1;
        } else if text_token(&t) {
            proof {
                if t@ == seq!['0'] {
                    assert(t@.len() == 1 && t@[0] == '0');
                }
            }
            let text = match decode_text(&t, sym_table) {
                Some(text) => text,
                None => {
                    return Err(XFlateError::XmlNError("unknown symbol code".to_string()));
                },
            };
            let mut text = text;
            let ghost piece = text@;
            out.append(&mut text);
            proof {
                lemma_prepend_twice(before, piece, decode_from(toks, i + 1, st, syms, w, tags));
            }
            i = i + 1;
        } else {
            proof {
                if t@ == seq!['0'] {
                    assert(t@.len() == 1 && t@[0] == '0');
                }
            }
            return Err(XFlateError::XmlNError("unexpected character in XMLN".to_string()));
        }
    }
    proof {
        assert(decode_from(toks, i as int, names_of(stack@), syms, w, tags) == Some(
            Seq::<char>::empty(),
        ));
        assert(out@ + Seq::<char>::empty() == out@);
    }
    Ok(string_of(out.as_slice()))
}

} // verus!
