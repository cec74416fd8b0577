//! The XMLN encoder: parse events to tokens over thirteen glyphs.

use vstd::prelude::*;

use crate::digits::{all_digits, decimal, digits_value, is_digit, lemma_decimal, push_decimal};
use crate::symbol_table::{
    XmlNSymbolTable, distinct_chars, fits_width, lemma_symbol_code, symbol_code, symbol_index,
    with_symbol,
};
use crate::tag_table::{XmlNTagTable, distinct_names, max_tags, tag_index, with_tag};
use crate::text::{chars_of, string_of};
use crate::xflate::XFlateError;
use crate::xmls::{in_alphabet, over_alphabet};
use crate::xml_source::{XmlAttribute, XmlItem, parse_xml, xml_items};

verus! {

/// The tokens written so far and the two tables as they stand.
pub ghost struct Coded {
    pub tokens: Seq<Seq<char>>,
    pub syms: Seq<char>,
    pub tags: Seq<Seq<char>>,
}

/// `prefix:local` where the name has a prefix, else `local`.
pub open spec fn qualified(prefix: Option<String>, local: String) -> Seq<char> {
    match prefix {
        Some(p) => p@ + seq![':'] + local@,
        None => local@,
    }
}

/// The symbols once each character of `s` has been added in turn.
pub open spec fn symbols_after(syms: Seq<char>, s: Seq<char>) -> Seq<char>
    decreases s.len(),
{
    if s.len() == 0 {
        syms
    } else {
        with_symbol(symbols_after(syms, s.drop_last()), s.last())
    }
}

/// The codes of the characters of `s`, one after another.
pub open spec fn text_code(syms: Seq<char>, w: nat, s: Seq<char>) -> Seq<char>
    decreases s.len(),
{
    if s.len() == 0 {
        Seq::empty()
    } else {
        text_code(syms, w, s.drop_last()) + symbol_code(syms, w, s.last())
    }
}

/// Writes the token of a name: `letter` then the name's code in decimal.
pub open spec fn put_tag_spec(c: Coded, letter: char, name: Seq<char>) -> Option<Coded> {
    let t = with_tag(c.tags, name);
    if t.len() > max_tags() {
        None
    } else {
        Some(
            Coded {
                tokens: c.tokens.push(seq![letter] + decimal(tag_index(t, name) as nat)),
                syms: c.syms,
                tags: t,
            },
        )
    }
}

/// Writes the token of a text, the codes of its characters; an empty text writes none.
pub open spec fn put_text_spec(c: Coded, w: nat, s: Seq<char>) -> Option<Coded> {
    let syms = symbols_after(c.syms, s);
    if !fits_width(syms.len(), w) {
        None
    } else if s.len() == 0 {
        Some(Coded { tokens: c.tokens, syms, tags: c.tags })
    } else {
        Some(Coded { tokens: c.tokens.push(text_code(syms, w, s)), syms, tags: c.tags })
    }
}

/// Writes each attribute: its name's token, then its value's.
pub open spec fn put_attributes_spec(c: Coded, w: nat, attrs: Seq<XmlAttribute>) -> Option<Coded>
    decreases attrs.len(),
{
    if attrs.len() == 0 {
        Some(c)
    } else {
        match put_attributes_spec(c, w, attrs.drop_last()) {
            None => None,
            Some(c1) => match put_tag_spec(c1, 'A', qualified(attrs.last().prefix, attrs.last().local)) {
                None => None,
                Some(c2) => put_text_spec(c2, w, attrs.last().value@),
            },
        }
    }
}

/// What one parse event writes.
pub open spec fn encode_item_spec(c: Coded, w: nat, item: XmlItem) -> Option<Coded> {
    match item {
        XmlItem::Other => Some(c),
        XmlItem::Start { prefix, local, attributes } => match put_tag_spec(c, 'T', qualified(prefix, local)) {
            None => None,
            Some(c1) => put_attributes_spec(c1, w, attributes@),
        },
        XmlItem::End => Some(Coded { tokens: c.tokens.push(seq!['0']), syms: c.syms, tags: c.tags }),
        XmlItem::Text(s) => put_text_spec(c, w, s@),
        XmlItem::Unsupported => None,
        XmlItem::Malformed(_) => None,
    }
}

/// What a run of parse events writes, or `None` where one of them fails.
pub open spec fn encode_items_spec(c: Coded, w: nat, items: Seq<XmlItem>) -> Option<Coded>
    decreases items.len(),
{
    if items.len() == 0 {
        Some(c)
    } else {
        match encode_items_spec(c, w, items.drop_last()) {
            None => None,
            Some(c1) => encode_item_spec(c1, w, items.last()),
        }
    }
}

/// Each token preceded by one space.
pub open spec fn spaced(tokens: Seq<Seq<char>>) -> Seq<char>
    decreases tokens.len(),
{
    if tokens.len() == 0 {
        Seq::empty()
    } else {
        spaced(tokens.drop_last()) + seq![' '] + tokens.last()
    }
}

/// The tokens separated by single spaces.
pub open spec fn joined(tokens: Seq<Seq<char>>) -> Seq<char> {
    if tokens.len() == 0 {
        Seq::empty()
    } else {
        spaced(tokens).drop_first()
    }
}

/// The starting point of an encoding with the tables as given.
pub open spec fn start(syms: Seq<char>, tags: Seq<Seq<char>>) -> Coded {
    Coded { tokens: Seq::empty(), syms, tags }
}

/// The symbols before a text are the first of those after it; the text's
/// characters are all among the latter, which stay distinct.
pub(crate) proof fn lemma_symbols_after(syms: Seq<char>, s: Seq<char>, i: int)
    requires
        distinct_chars(syms),
        0 <= i <= s.len(),
    ensures
        symbols_after(syms, s.take(i)).is_prefix_of(symbols_after(syms, s)),
        syms.is_prefix_of(symbols_after(syms, s)),
        distinct_chars(symbols_after(syms, s)),
        forall|j: int| 0 <= j < s.len() ==> symbols_after(syms, s).contains(#[trigger] s[j]),
    decreases s.len(),
{
    if s.len() == 0 {
        assert(s.take(i) == s);
        assert(syms.is_prefix_of(syms));
    } else {
        let t = s.drop_last();
        let a = symbols_after(syms, t);
        let b = symbols_after(syms, s);
        if i == s.len() {
            assert(s.take(i) == s);
            assert(b.is_prefix_of(b));
        } else {
            lemma_symbols_after(syms, t, i);
            assert(s.take(i) == t.take(i));
        }
        lemma_symbols_after(syms, t, t.len() as int);
        assert(a.is_prefix_of(b));
        assert forall|x: int, y: int| 0 <= x < y < b.len() implies b[x] != b[y] by {
            if y == a.len() {
                assert(!a.contains(s.last()));
                assert(b[x] == a[x]);
            } else {
                assert(b[x] == a[x] && b[y] == a[y]);
            }
        }
        assert forall|j: int| 0 <= j < s.len() implies b.contains(#[trigger] s[j]) by {
            if j < t.len() {
                assert(t[j] == s[j]);
                assert(a.contains(t[j]));
                let k = choose|k: int| 0 <= k < a.len() && a[k] == t[j];
                assert(b[k] == a[k]);
            } else {
                if a.contains(s.last()) {
                } else {
                    assert(b[a.len() as int] == s.last());
                }
            }
        }
    }
}

/// A code stays the same when later symbols are added.
pub(crate) proof fn lemma_symbol_code_stable(syms: Seq<char>, more: Seq<char>, w: nat, c: char)
    requires
        syms.is_prefix_of(more),
        distinct_chars(more),
        syms.contains(c),
    ensures
        symbol_code(more, w, c) == symbol_code(syms, w, c),
{
    let i = symbol_index(syms, c);
    let j = symbol_index(more, c);
    assert(more[i] == syms[i]);
    assert(more.contains(c));
    assert(i == j);
}

/// The codes of a text stay the same when later symbols are added.
pub(crate) proof fn lemma_text_code_stable(syms: Seq<char>, more: Seq<char>, w: nat, s: Seq<char>)
    requires
        syms.is_prefix_of(more),
        distinct_chars(more),
        forall|j: int| 0 <= j < s.len() ==> syms.contains(#[trigger] s[j]),
    ensures
        text_code(more, w, s) == text_code(syms, w, s),
    decreases s.len(),
{
    if s.len() > 0 {
        let t = s.drop_last();
        assert forall|j: int| 0 <= j < t.len() implies syms.contains(#[trigger] t[j]) by {
            assert(t[j] == s[j]);
        }
        lemma_text_code_stable(syms, more, w, t);
        assert(syms.contains(s[s.len() - 1]));
        lemma_symbol_code_stable(syms, more, w, s.last());
    }
}

/// A prefix of the events that fails makes the whole run fail.
proof fn lemma_encode_fails(c: Coded, w: nat, items: Seq<XmlItem>, i: int)
    requires
        0 <= i <= items.len(),
        encode_items_spec(c, w, items.take(i)) is None,
    ensures
        encode_items_spec(c, w, items) is None,
    decreases items.len() - i,
{
    if i < items.len() {
        assert(items.take(i + 1).drop_last() == items.take(i));
        lemma_encode_fails(c, w, items, i + 1);
    } else {
        assert(items.take(i) == items);
    }
}

/// A prefix of the attributes that fails makes the start tag fail.
proof fn lemma_attributes_fail(c: Coded, w: nat, attrs: Seq<XmlAttribute>, i: int)
    requires
        0 <= i <= attrs.len(),
        put_attributes_spec(c, w, attrs.take(i)) is None,
    ensures
        put_attributes_spec(c, w, attrs) is None,
    decreases attrs.len() - i,
{
    if i < attrs.len() {
        assert(attrs.take(i + 1).drop_last() == attrs.take(i));
        lemma_attributes_fail(c, w, attrs, i + 1);
    } else {
        assert(attrs.take(i) == attrs);
    }
}

/// Writes a space and the codes of each character of `token`, adding new
/// characters to the symbol table; an empty token writes nothing.
fn put_symbols<S: XmlNSymbolTable>(out: &mut Vec<char>, token: &str, sym_table: &mut S) -> (r:
    Result<(), XFlateError>)
    requires
        old(sym_table).wf(),
    ensures
        final(sym_table).wf(),
        final(sym_table).width() == old(sym_table).width(),
        ({
            let syms = symbols_after(old(sym_table).symbols(), token@);
            if !fits_width(syms.len(), old(sym_table).width()) {
                r matches Err(XFlateError::XmlNError(_))
            } else {
                &&& r is Ok
                &&& final(sym_table).symbols() == syms
                &&& final(out)@ == if token@.len() == 0 {
                    old(out)@
                } else {
                    old(out)@ + seq![' '] + text_code(syms, old(sym_table).width(), token@)
                }
            }
        }),
{
    proof {
        sym_table.lemma_wf();
    }
    let chars = chars_of(token);
    if chars.len() == 0 {
        return Ok(());
    }
    let ghost syms0 = sym_table.symbols();
    let ghost w = sym_table.width();
    proof {
        lemma_symbols_after(syms0, token@, 0);
    }
    out.push(' ');
    let ghost base = out@;
    let mut i: usize = 0;
    while i < chars.len()
        invariant
            chars@ == token@,
            0 <= i <= chars@.len(),
            sym_table.wf(),
            sym_table.width() == w,
            w == old(sym_table).width(),
            syms0 == old(sym_table).symbols(),
            distinct_chars(syms0),
            sym_table.symbols() == symbols_after(syms0, token@.take(i as int)),
            fits_width(sym_table.symbols().len(), w),
            out@ == base + text_code(sym_table.symbols(), w, token@.take(i as int)),
            base == old(out)@ + seq![' '],
        decreases chars@.len() - i,
    {
        let ghost before = sym_table.symbols();
        let c = chars[i];
        proof {
            assert(token@.take(i as int + 1).drop_last() == token@.take(i as int));
            assert(token@.take(i as int + 1).last() == c);
        }
        match sym_table.encode(c) {
            Some(code) => {
                let mut code_chars = chars_of(code.as_str());
                out.append(&mut code_chars);
                proof {
                    let after = sym_table.symbols();
                    let pre = token@.take(i as int);
                    lemma_symbols_after(syms0, token@.take(i as int + 1), i as int);
                    lemma_symbols_after(syms0, pre, pre.len() as int);
                    assert forall|j: int| 0 <= j < pre.len() implies before.contains(
                        #[trigger] pre[j],
                    ) by {}
                    lemma_text_code_stable(before, after, w, pre);
                    assert(text_code(after, w, token@.take(i as int + 1)) == text_code(after, w, pre)
                        + symbol_code(after, w, c));
                }
            },
            None => {
                proof {
                    let full = symbols_after(syms0, token@);
                    lemma_symbols_after(syms0, token@, i as int + 1);
                    assert(!fits_width(full.len(), w));
                }
                return Err(XFlateError::XmlNError("symbol table overflow".to_string()));
            },
        }
        i = i + 1;
    }
    proof {
        assert(token@.take(i as int) == token@);
    }
    Ok(())
}

/// Writes a space, `letter` and the code of `name`, adding it to the tag table if new.
fn put_tag<T: XmlNTagTable>(out: &mut Vec<char>, letter: char, name: &str, tag_table: &mut T) -> (r:
    Result<(), XFlateError>)
    requires
        old(tag_table).wf(),
    ensures
        final(tag_table).wf(),
        ({
            let t = with_tag(old(tag_table).tags(), name@);
            if t.len() > max_tags() {
                r matches Err(XFlateError::XmlNError(_))
            } else {
                &&& r is Ok
                &&& final(tag_table).tags() == t
                &&& final(out)@ == old(out)@ + seq![' '] + (seq![letter] + decimal(
                    tag_index(t, name@) as nat,
                ))
            }
        }),
{
    proof {
        tag_table.lemma_wf();
    }
    match tag_table.encode(name) {
        Some(code) => {
            proof {
                crate::tag_table::lemma_tag_round_trip(old(tag_table).tags(), name@);
            }
            out.push(' ');
            out.push(letter);
            push_decimal(code as usize, out);
            proof {
                assert(out@ =~= old(out)@ + seq![' '] + (seq![letter] + decimal(
                    tag_index(with_tag(old(tag_table).tags(), name@), name@) as nat,
                )));
            }
            Ok(())
        },
        None => Err(XFlateError::XmlNError("tag table overflow".to_string())),
    }
}

/// Writes the token of an element's name.
fn put_elem_start_tag<T: XmlNTagTable>(out: &mut Vec<char>, tag: &str, tag_table: &mut T) -> (r:
    Result<(), XFlateError>)
    requires
        old(tag_table).wf(),
    ensures
        final(tag_table).wf(),
        ({
            let t = with_tag(old(tag_table).tags(), tag@);
            if t.len() > max_tags() {
                r matches Err(XFlateError::XmlNError(_))
            } else {
                &&& r is Ok
                &&& final(tag_table).tags() == t
                &&& final(out)@ == old(out)@ + seq![' '] + (seq!['T'] + decimal(
                    tag_index(t, tag@) as nat,
                ))
            }
        }),
{
    put_tag(out, 'T', tag, tag_table)
}

/// Writes the token of an attribute's name.
fn put_attr_tag<T: XmlNTagTable>(out: &mut Vec<char>, attr_name: &str, tag_table: &mut T) -> (r:
    Result<(), XFlateError>)
    requires
        old(tag_table).wf(),
    ensures
        final(tag_table).wf(),
        ({
            let t = with_tag(old(tag_table).tags(), attr_name@);
            if t.len() > max_tags() {
                r matches Err(XFlateError::XmlNError(_))
            } else {
                &&& r is Ok
                &&& final(tag_table).tags() == t
                &&& final(out)@ == old(out)@ + seq![' '] + (seq!['A'] + decimal(
                    tag_index(t, attr_name@) as nat,
                ))
            }
        }),
{
    put_tag(out, 'A', attr_name, tag_table)
}

/// The qualified form of a name.
fn qualified_name(prefix: &Option<String>, local: &String) -> (r: String)
    ensures
        r@ == qualified(*prefix, *local),
{
    match prefix {
        Some(p) => {
            let mut chars = chars_of(p.as_str());
            chars.push(':');
            let mut rest = chars_of(local.as_str());
            chars.append(&mut rest);
            string_of(chars.as_slice())
        },
        None => local.clone(),
    }
}

/// Whether a token is a non-empty run of XMLN glyphs other than the space.
pub open spec fn token_ok(t: Seq<char>) -> bool {
    &&& t.len() > 0
    &&& forall|k: int| 0 <= k < t.len() ==> in_alphabet(#[trigger] t[k]) && t[k] != ' '
}

/// Whether a token opens an element.
pub open spec fn is_open_token(t: Seq<char>) -> bool {
    t.len() > 0 && t[0] == 'T'
}

/// Whether a token closes an element.
pub open spec fn is_close_token(t: Seq<char>) -> bool {
    t == seq!['0']
}

/// How many tokens open an element.
pub open spec fn count_opens(tokens: Seq<Seq<char>>) -> nat
    decreases tokens.len(),
{
    if tokens.len() == 0 {
        0
    } else {
        count_opens(tokens.drop_last()) + if is_open_token(tokens.last()) {
            1nat
        } else {
            0nat
        }
    }
}

/// How many tokens close an element.
pub open spec fn count_closes(tokens: Seq<Seq<char>>) -> nat
    decreases tokens.len(),
{
    if tokens.len() == 0 {
        0
    } else {
        count_closes(tokens.drop_last()) + if is_close_token(tokens.last()) {
            1nat
        } else {
            0nat
        }
    }
}

/// How many events start an element.
pub open spec fn count_starts(items: Seq<XmlItem>) -> nat
    decreases items.len(),
{
    if items.len() == 0 {
        0
    } else {
        count_starts(items.drop_last()) + if items.last() is Start {
            1nat
        } else {
            0nat
        }
    }
}

/// How many events end an element.
pub open spec fn count_ends(items: Seq<XmlItem>) -> nat
    decreases items.len(),
{
    if items.len() == 0 {
        0
    } else {
        count_ends(items.drop_last()) + if items.last() is End {
            1nat
        } else {
            0nat
        }
    }
}

/// Whether a state of the encoding has distinct symbols with codes and good tokens.
pub open spec fn coded_ok(c: Coded, w: nat) -> bool {
    &&& distinct_chars(c.syms)
    &&& fits_width(c.syms.len(), w)
    &&& forall|k: int| 0 <= k < c.tokens.len() ==> token_ok(#[trigger] c.tokens[k])
}

proof fn lemma_push_token(tokens: Seq<Seq<char>>, t: Seq<char>)
    ensures
        count_opens(tokens.push(t)) == count_opens(tokens) + if is_open_token(t) {
            1nat
        } else {
            0nat
        },
        count_closes(tokens.push(t)) == count_closes(tokens) + if is_close_token(t) {
            1nat
        } else {
            0nat
        },
{
    assert(tokens.push(t).drop_last() == tokens);
}

/// The codes of a text are digits, `w` for each character, and never a lone zero.
pub(crate) proof fn lemma_text_code_digits(syms: Seq<char>, w: nat, s: Seq<char>)
    requires
        distinct_chars(syms),
        fits_width(syms.len(), w),
        forall|j: int| 0 <= j < s.len() ==> syms.contains(#[trigger] s[j]),
    ensures
        all_digits(text_code(syms, w, s)),
        text_code(syms, w, s).len() == s.len() * w,
        s.len() > 0 ==> text_code(syms, w, s) != seq!['0'],
        s.len() > 0 ==> w > 0,
    decreases s.len(),
{
    if s.len() > 0 {
        let t = s.drop_last();
        assert forall|j: int| 0 <= j < t.len() implies syms.contains(#[trigger] t[j]) by {
            assert(t[j] == s[j]);
        }
        lemma_text_code_digits(syms, w, t);
        assert(syms.contains(s[s.len() - 1]));
        lemma_symbol_code(syms, w, s.last());
        let code = symbol_code(syms, w, s.last());
        let all = text_code(syms, w, s);
        assert(all == text_code(syms, w, t) + code);
        assert forall|k: int| 0 <= k < all.len() implies is_digit(#[trigger] all[k]) by {
            if k < text_code(syms, w, t).len() {
                assert(all[k] == text_code(syms, w, t)[k]);
            } else {
                assert(all[k] == code[k - text_code(syms, w, t).len()]);
            }
        }
        assert(s.len() * w == t.len() * w + w) by (nonlinear_arith)
            requires
                s.len() == t.len() + 1,
        ;
        if w == 0 {
            assert(crate::digits::pow10(0) == 1);
            assert(syms.len() >= 1);
        }
        if all == seq!['0'] {
            assert(t.len() * w == 0);
            assert(code == all);
            assert(code.drop_last() =~= Seq::<char>::empty());
            assert(digits_value(code.drop_last()) == 0);
        }
    }
}

pub(crate) proof fn lemma_put_tag_ok(c: Coded, w: nat, letter: char, name: Seq<char>)
    requires
        coded_ok(c, w),
        letter == 'T' || letter == 'A',
        put_tag_spec(c, letter, name) is Some,
    ensures
        coded_ok(put_tag_spec(c, letter, name)->0, w),
        count_opens(put_tag_spec(c, letter, name)->0.tokens) == count_opens(c.tokens) + if letter
            == 'T' {
            1nat
        } else {
            0nat
        },
        count_closes(put_tag_spec(c, letter, name)->0.tokens) == count_closes(c.tokens),
{
    let c2 = put_tag_spec(c, letter, name)->0;
    let t = seq![letter] + decimal(tag_index(with_tag(c.tags, name), name) as nat);
    lemma_decimal(tag_index(with_tag(c.tags, name), name) as nat);
    assert(token_ok(t)) by {
        assert forall|k: int| 0 <= k < t.len() implies in_alphabet(#[trigger] t[k]) && t[k]
            != ' ' by {
            if k > 0 {
                assert(t[k] == decimal(tag_index(with_tag(c.tags, name), name) as nat)[k - 1]);
            }
        }
    }
    assert forall|k: int| 0 <= k < c2.tokens.len() implies token_ok(#[trigger] c2.tokens[k]) by {
        if k < c.tokens.len() {
            assert(c2.tokens[k] == c.tokens[k]);
        }
    }
    lemma_push_token(c.tokens, t);
}

pub(crate) proof fn lemma_put_text_ok(c: Coded, w: nat, s: Seq<char>)
    requires
        coded_ok(c, w),
        put_text_spec(c, w, s) is Some,
    ensures
        coded_ok(put_text_spec(c, w, s)->0, w),
        count_opens(put_text_spec(c, w, s)->0.tokens) == count_opens(c.tokens),
        count_closes(put_text_spec(c, w, s)->0.tokens) == count_closes(c.tokens),
{
    let c2 = put_text_spec(c, w, s)->0;
    lemma_symbols_after(c.syms, s, 0);
    if s.len() > 0 {
        let t = text_code(c2.syms, w, s);
        lemma_text_code_digits(c2.syms, w, s);
        assert(t.len() > 0) by (nonlinear_arith)
            requires
                t.len() == s.len() * w,
                s.len() > 0,
                w > 0,
        ;
        assert(token_ok(t));
        assert forall|k: int| 0 <= k < c2.tokens.len() implies token_ok(#[trigger] c2.tokens[k]) by {
            if k < c.tokens.len() {
                assert(c2.tokens[k] == c.tokens[k]);
            }
        }
        lemma_push_token(c.tokens, t);
        assert(is_digit(t[0]));
    }
}

pub(crate) proof fn lemma_put_attributes_ok(c: Coded, w: nat, attrs: Seq<XmlAttribute>)
    requires
        coded_ok(c, w),
        put_attributes_spec(c, w, attrs) is Some,
    ensures
        coded_ok(put_attributes_spec(c, w, attrs)->0, w),
        count_opens(put_attributes_spec(c, w, attrs)->0.tokens) == count_opens(c.tokens),
        count_closes(put_attributes_spec(c, w, attrs)->0.tokens) == count_closes(c.tokens),
    decreases attrs.len(),
{
    if attrs.len() > 0 {
        lemma_put_attributes_ok(c, w, attrs.drop_last());
        let c1 = put_attributes_spec(c, w, attrs.drop_last())->0;
        lemma_put_tag_ok(c1, w, 'A', qualified(attrs.last().prefix, attrs.last().local));
        let c2 = put_tag_spec(c1, 'A', qualified(attrs.last().prefix, attrs.last().local))->0;
        lemma_put_text_ok(c2, w, attrs.last().value@);
    }
}

pub(crate) proof fn lemma_encode_items_ok(c: Coded, w: nat, items: Seq<XmlItem>)
    requires
        coded_ok(c, w),
        encode_items_spec(c, w, items) is Some,
    ensures
        coded_ok(encode_items_spec(c, w, items)->0, w),
        count_opens(encode_items_spec(c, w, items)->0.tokens) == count_opens(c.tokens)
            + count_starts(items),
        count_closes(encode_items_spec(c, w, items)->0.tokens) == count_closes(c.tokens)
            + count_ends(items),
    decreases items.len(),
{
    if items.len() > 0 {
        lemma_encode_items_ok(c, w, items.drop_last());
        let c1 = encode_items_spec(c, w, items.drop_last())->0;
        match items.last() {
            XmlItem::Start { prefix, local, attributes } => {
                lemma_put_tag_ok(c1, w, 'T', qualified(prefix, local));
                let c2 = put_tag_spec(c1, 'T', qualified(prefix, local))->0;
                lemma_put_attributes_ok(c2, w, attributes@);
            },
            XmlItem::End => {
                let c2 = encode_item_spec(c1, w, items.last())->0;
                lemma_push_token(c1.tokens, seq!['0']);
                assert(token_ok(seq!['0']));
                assert forall|k: int| 0 <= k < c2.tokens.len() implies token_ok(
                    #[trigger] c2.tokens[k],
                ) by {
                    if k < c1.tokens.len() {
                        assert(c2.tokens[k] == c1.tokens[k]);
                    }
                }
            },
            XmlItem::Text(s) => {
                lemma_put_text_ok(c1, w, s@);
            },
            _ => {},
        }
    }
}

/// Tokens of non-space glyphs joined by spaces give a text over the XMLN alphabet.
proof fn lemma_spaced_alphabet(tokens: Seq<Seq<char>>)
    requires
        forall|k: int| 0 <= k < tokens.len() ==> token_ok(#[trigger] tokens[k]),
    ensures
        over_alphabet(spaced(tokens)),
        tokens.len() > 0 ==> spaced(tokens).len() > 0 && spaced(tokens)[0] == ' ',
    decreases tokens.len(),
{
    if tokens.len() > 0 {
        let t = tokens.drop_last();
        assert forall|k: int| 0 <= k < t.len() implies token_ok(#[trigger] t[k]) by {
            assert(t[k] == tokens[k]);
        }
        lemma_spaced_alphabet(t);
        let a = spaced(t);
        let l = tokens.last();
        assert(token_ok(tokens[tokens.len() - 1]));
        let s = spaced(tokens);
        assert(s == a + seq![' '] + l);
        assert forall|k: int| 0 <= k < s.len() implies in_alphabet(#[trigger] s[k]) by {
            if k < a.len() {
                assert(s[k] == a[k]);
            } else if k == a.len() {
                assert(s[k] == ' ');
            } else {
                assert(s[k] == l[k - a.len() - 1]);
            }
        }
    }
}

/// Every XMLN text that the encoder writes is over the thirteen-glyph alphabet.
pub proof fn lemma_xmln_alphabet(syms: Seq<char>, tags: Seq<Seq<char>>, w: nat, items: Seq<XmlItem>)
    requires
        distinct_chars(syms),
        fits_width(syms.len(), w),
        encode_items_spec(start(syms, tags), w, items) is Some,
    ensures
        over_alphabet(joined(encode_items_spec(start(syms, tags), w, items)->0.tokens)),
{
    lemma_encode_items_ok(start(syms, tags), w, items);
    let tokens = encode_items_spec(start(syms, tags), w, items)->0.tokens;
    lemma_spaced_alphabet(tokens);
    if tokens.len() > 0 {
        let s = spaced(tokens);
        assert forall|k: int| 0 <= k < s.drop_first().len() implies in_alphabet(
            #[trigger] s.drop_first()[k],
        ) by {
            assert(s.drop_first()[k] == s[k + 1]);
        }
    }
}

/// The encoder writes one opening token for each start tag and one closing token
/// for each end tag, so a document whose tags pair up yields as many of each.
pub proof fn lemma_tag_balance(syms: Seq<char>, tags: Seq<Seq<char>>, w: nat, items: Seq<XmlItem>)
    requires
        distinct_chars(syms),
        fits_width(syms.len(), w),
        encode_items_spec(start(syms, tags), w, items) is Some,
    ensures
        count_opens(encode_items_spec(start(syms, tags), w, items)->0.tokens) == count_starts(
            items,
        ),
        count_closes(encode_items_spec(start(syms, tags), w, items)->0.tokens) == count_ends(
            items,
        ),
        count_starts(items) == count_ends(items) ==> count_opens(
            encode_items_spec(start(syms, tags), w, items)->0.tokens,
        ) == count_closes(encode_items_spec(start(syms, tags), w, items)->0.tokens),
{
    lemma_encode_items_ok(start(syms, tags), w, items);
}

/// One more token adds a space and the token.
proof fn lemma_spaced_push(tokens: Seq<Seq<char>>, t: Seq<char>)
    ensures
        spaced(tokens.push(t)) == spaced(tokens) + seq![' '] + t,
{
    assert(tokens.push(t).drop_last() == tokens);
}

/// Encodes parse events as XMLN text, growing the two tables with each new
/// name and character.
pub fn encode_items<S: XmlNSymbolTable, T: XmlNTagTable>(
    items: &[XmlItem],
    sym_table: &mut S,
    tag_table: &mut T,
) -> (r: Result<String, XFlateError>)
    requires
        old(sym_table).wf(),
        old(tag_table).wf(),
    ensures
        final(sym_table).wf(),
        final(tag_table).wf(),
        final(sym_table).width() == old(sym_table).width(),
        ({
            match encode_items_spec(
                start(old(sym_table).symbols(), old(tag_table).tags()),
                old(sym_table).width(),
                items@,
            ) {
                Some(c) => {
                    &&& r matches Ok(s) && s@ == joined(c.tokens)
                    &&& final(sym_table).symbols() == c.syms
                    &&& final(tag_table).tags() == c.tags
                },
                None => r matches Err(XFlateError::XmlNError(_)),
            }
        }),
{
    let ghost w = sym_table.width();
    let ghost c0 = start(sym_table.symbols(), tag_table.tags());
    let ghost mut c = c0;
    let mut xmln: Vec<char> = Vec::new();
    let mut i: usize = 0;
    proof {
        assert(items@.take(0) =~= Seq::<XmlItem>::empty());
    }
    while i < items.len()
        invariant
            0 <= i <= items@.len(),
            sym_table.wf(),
            tag_table.wf(),
            sym_table.width() == w,
            w == old(sym_table).width(),
            c0 == start(old(sym_table).symbols(), old(tag_table).tags()),
            encode_items_spec(c0, w, items@.take(i as int)) == Some(c),
            xmln@ == spaced(c.tokens),
            sym_table.symbols() == c.syms,
            tag_table.tags() == c.tags,
        decreases items@.len() - i,
    {
        proof {
            assert(items@.take(i as int + 1).drop_last() == items@.take(i as int));
            assert(items@.take(i as int + 1).last() == items@[i as int]);
        }
        match &items[i] {
            XmlItem::Other => {},
            XmlItem::Start { prefix, local, attributes } => {
                let qname = qualified_name(prefix, local);
                match put_elem_start_tag(&mut xmln, qname.as_str(), tag_table) {
                    Ok(()) => {},
                    Err(e) => {
                        proof {
                            lemma_encode_fails(c0, w, items@, i as int + 1);
                        }
                        return Err(e);
                    },
                }
                let ghost c1 = put_tag_spec(c, 'T', qualified(*prefix, *local))->0;
                proof {
                    lemma_spaced_push(c.tokens, c1.tokens.last());
                    assert(c1.tokens == c.tokens.push(c1.tokens.last()));
                    assert(attributes@.take(0) =~= Seq::<XmlAttribute>::empty());
                }
                let ghost mut ca = c1;
                let mut j: usize = 0;
                while j < attributes.len()
                    invariant
                        0 <= j <= attributes@.len(),
                        i < items@.len(),
                        sym_table.wf(),
                        tag_table.wf(),
                        sym_table.width() == w,
                        w == old(sym_table).width(),
                        c0 == start(old(sym_table).symbols(), old(tag_table).tags()),
                        encode_items_spec(c0, w, items@.take(i as int)) == Some(c),
                        items@.take(i as int + 1).drop_last() == items@.take(i as int),
                        items@.take(i as int + 1).last() == items@[i as int],
                        items@[i as int] == (XmlItem::Start { prefix: *prefix, local: *local, attributes: *attributes }),
                        put_tag_spec(c, 'T', qualified(*prefix, *local)) == Some(c1),
                        put_attributes_spec(c1, w, attributes@.take(j as int)) == Some(ca),
                        xmln@ == spaced(ca.tokens),
                        sym_table.symbols() == ca.syms,
                        tag_table.tags() == ca.tags,
                    decreases attributes@.len() - j,
                {
                    let attr = &attributes[j];
                    proof {
                        assert(attributes@.take(j as int + 1).drop_last() == attributes@.take(
                            j as int,
                        ));
                        assert(attributes@.take(j as int + 1).last() == *attr);
                    }
                    let aname = qualified_name(&attr.prefix, &attr.local);
                    match put_attr_tag(&mut xmln, aname.as_str(), tag_table) {
                        Ok(()) => {},
                        Err(e) => {
                            proof {
                                lemma_attributes_fail(c1, w, attributes@, j as int + 1);
                                lemma_encode_fails(c0, w, items@, i as int + 1);
                            }
                            return Err(e);
                        },
                    }
                    let ghost c2 = put_tag_spec(ca, 'A', qualified(attr.prefix, attr.local))->0;
                    proof {
                        lemma_spaced_push(ca.tokens, c2.tokens.last());
                        assert(c2.tokens == ca.tokens.push(c2.tokens.last()));
                    }
                    match put_symbols(&mut xmln, attr.value.as_str(), sym_table) {
                        Ok(()) => {},
                        Err(e) => {
                            proof {
                                lemma_attributes_fail(c1, w, attributes@, j as int + 1);
                                lemma_encode_fails(c0, w, items@, i as int + 1);
                            }
                            return Err(e);
                        },
                    }
                    proof {
                        let c3 = put_text_spec(c2, w, attr.value@)->0;
                        if attr.value@.len() > 0 {
                            lemma_spaced_push(c2.tokens, c3.tokens.last());
                            assert(c3.tokens == c2.tokens.push(c3.tokens.last()));
                        }
                        ca = c3;
                    }
                    j = j + 1;
                }
                proof {
                    assert(attributes@.take(j as int) == attributes@);
                    c = ca;
                }
            },
            XmlItem::End => {
                xmln.push(' ');
                xmln.push('0');
                proof {
                    lemma_spaced_push(c.tokens, seq!['0']);
                    assert(xmln@ =~= spaced(c.tokens) + seq![' '] + seq!['0']);
                    c = Coded { tokens: c.tokens.push(seq!['0']), syms: c.syms, tags: c.tags };
                }
            },
            XmlItem::Text(text) => {
                match put_symbols(&mut xmln, text.as_str(), sym_table) {
                    Ok(()) => {},
                    Err(e) => {
                        proof {
                            lemma_encode_fails(c0, w, items@, i as int + 1);
                        }
                        return Err(e);
                    },
                }
                proof {
                    let c3 = put_text_spec(c, w, text@)->0;
                    if text@.len() > 0 {
                        lemma_spaced_push(c.tokens, c3.tokens.last());
                        assert(c3.tokens == c.tokens.push(c3.tokens.last()));
                    }
                    c = c3;
                }
            },
            XmlItem::Unsupported => {
                proof {
                    lemma_encode_fails(c0, w, items@, i as int + 1);
                }
                return Err(
                    XFlateError::XmlNError(
                        "comments, CDATA and processing instructions are not supported".to_string(),
                    ),
                );
            },
            XmlItem::Malformed(message) => {
                proof {
                    lemma_encode_fails(c0, w, items@, i as int + 1);
                }
                return Err(XFlateError::XmlNError(message.clone()));
            },
        }
        i = i + 1;
    }
    proof {
        assert(items@.take(i as int) == items@);
    }
    // Every token was written after a space: drop the leading one.
    if xmln.len() > 0 {
        xmln.remove(0);
    }
    proof {
        if c.tokens.len() > 0 {
            lemma_spaced_push(c.tokens.drop_last(), c.tokens.last());
            assert(c.tokens.drop_last().push(c.tokens.last()) == c.tokens);
        }
        assert(xmln@ =~= joined(c.tokens));
    }
    Ok(string_of(xmln.as_slice()))
}

/// Parses an XML document and encodes its events as XMLN text.
pub fn encode_xmln<S: XmlNSymbolTable, T: XmlNTagTable>(
    data: &[u8],
    sym_table: &mut S,
    tag_table: &mut T,
) -> (r: Result<String, XFlateError>)
    requires
        old(sym_table).wf(),
        old(tag_table).wf(),
    ensures
        final(sym_table).wf(),
        final(tag_table).wf(),
        final(sym_table).width() == old(sym_table).width(),
        ({
            match encode_items_spec(
                start(old(sym_table).symbols(), old(tag_table).tags()),
                old(sym_table).width(),
                xml_items(data@),
            ) {
                Some(c) => {
                    &&& r matches Ok(s) && s@ == joined(c.tokens)
                    &&& final(sym_table).symbols() == c.syms
                    &&& final(tag_table).tags() == c.tags
                },
                None => r matches Err(XFlateError::XmlNError(_)),
            }
        }),
{
    let items = parse_xml(data);
    encode_items(items.as_slice(), sym_table, tag_table)
}

} // verus!
