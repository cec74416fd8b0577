//! Decoding XMLN text restores the canonical form of the document it was encoded from.

use vstd::prelude::*;

use crate::cursor::{lemma_until_space, until_space};
use crate::digits::{all_digits, digits_value, is_digit};
use crate::symbol_table::{distinct_chars, fits_width, lemma_symbol_code, symbol_code, symbol_for};
use crate::xml_source::{XmlAttribute, XmlItem};
use crate::xmln::{
    Coded, coded_ok, encode_item_spec, encode_items_spec, joined, lemma_encode_items_ok,
    lemma_put_attributes_ok, lemma_put_tag_ok, lemma_put_text_ok, lemma_symbols_after,
    lemma_text_code_digits, lemma_text_code_stable, put_attributes_spec, put_tag_spec,
    put_text_spec, qualified, spaced, start, symbols_after, text_code, token_ok,
};
use crate::digits::{decimal, lemma_decimal, parsed_number};
use crate::tag_table::{max_tags, tag_for, tag_index, with_tag};
use crate::xmln_decoder::{
    attr_text, decode_from, decoded_xmln, is_text_token, lemma_prepend_twice, next_is_attr, prepend,
    tag_end, tag_name_of, text_of, tokens_of,
};

verus! {

proof fn lemma_until_space_concat(x: Seq<char>, y: Seq<char>)
    ensures
        until_space(x + (seq![' '] + y)) == until_space(x),
    decreases x.len(),
{
    let z = seq![' '] + y;
    if x.len() == 0 {
        assert(x + z == z);
    } else if x[0] != ' ' {
        assert((x + z).drop_first() == x.drop_first() + z);
        lemma_until_space_concat(x.drop_first(), y);
    }
}

proof fn lemma_tokens_of_concat(x: Seq<char>, y: Seq<char>)
    ensures
        tokens_of(x + (seq![' '] + y)) == tokens_of(x) + tokens_of(y),
    decreases x.len(),
{
    let z = seq![' '] + y;
    let s = x + z;
    if x.len() == 0 {
        assert(s == z);
        assert(z.drop_first() == y);
        assert(tokens_of(x) =~= Seq::<Seq<char>>::empty());
        assert(Seq::<Seq<char>>::empty() + tokens_of(y) =~= tokens_of(y));
    } else if x[0] == ' ' {
        assert(s.drop_first() == x.drop_first() + z);
        lemma_tokens_of_concat(x.drop_first(), y);
    } else {
        lemma_until_space_concat(x, y);
        lemma_until_space(x);
        let u = until_space(x);
        assert(s.skip(u.len() as int) == x.skip(u.len() as int) + z);
        lemma_tokens_of_concat(x.skip(u.len() as int), y);
        assert(seq![u] + (tokens_of(x.skip(u.len() as int)) + tokens_of(y)) =~= (seq![u]
            + tokens_of(x.skip(u.len() as int))) + tokens_of(y));
    }
}

proof fn lemma_until_space_whole(t: Seq<char>)
    requires
        forall|k: int| 0 <= k < t.len() ==> #[trigger] t[k] != ' ',
    ensures
        until_space(t) == t,
    decreases t.len(),
{
    if t.len() > 0 {
        let d = t.drop_first();
        assert forall|k: int| 0 <= k < d.len() implies #[trigger] d[k] != ' ' by {
            assert(d[k] == t[k + 1]);
        }
        lemma_until_space_whole(d);
        assert(seq![t[0]] + d =~= t);
    }
}

proof fn lemma_tokens_of_token(t: Seq<char>)
    requires
        token_ok(t),
    ensures
        tokens_of(t) == seq![t],
{
    lemma_until_space_whole(t);
    assert(t.skip(t.len() as int) =~= Seq::<char>::empty());
    assert(tokens_of(Seq::<char>::empty()) =~= Seq::<Seq<char>>::empty());
    assert(seq![t] + Seq::<Seq<char>>::empty() =~= seq![t]);
}

proof fn lemma_spaced_starts_with_space(ts: Seq<Seq<char>>)
    requires
        ts.len() > 0,
    ensures
        spaced(ts).len() > 0,
        spaced(ts)[0] == ' ',
    decreases ts.len(),
{
    let d = ts.drop_last();
    let a = spaced(d);
    assert(spaced(ts) == a + seq![' '] + ts.last());
    if ts.len() > 1 {
        lemma_spaced_starts_with_space(d);
        assert(spaced(ts)[0] == a[0]);
    } else {
        assert(a =~= Seq::<char>::empty());
        assert(spaced(ts)[0] == ' ');
    }
}

/// Splitting tokens joined by spaces gives back the tokens.
pub proof fn lemma_tokens_of_joined(ts: Seq<Seq<char>>)
    requires
        forall|k: int| 0 <= k < ts.len() ==> token_ok(#[trigger] ts[k]),
    ensures
        tokens_of(joined(ts)) == ts,
    decreases ts.len(),
{
    if ts.len() == 0 {
        assert(tokens_of(Seq::<char>::empty()) =~= Seq::<Seq<char>>::empty());
    } else if ts.len() == 1 {
        assert(ts.drop_last() =~= Seq::<Seq<char>>::empty());
        assert(spaced(ts.drop_last()) =~= Seq::<char>::empty());
        assert(spaced(ts) =~= seq![' '] + ts[0]);
        assert(joined(ts) =~= ts[0]);
        lemma_tokens_of_token(ts[0]);
        assert(seq![ts[0]] =~= ts);
    } else {
        let d = ts.drop_last();
        assert forall|k: int| 0 <= k < d.len() implies token_ok(#[trigger] d[k]) by {
            assert(d[k] == ts[k]);
        }
        lemma_tokens_of_joined(d);
        lemma_spaced_starts_with_space(d);
        let a = spaced(d);
        assert(spaced(ts) == a + seq![' '] + ts.last());
        assert(joined(ts) =~= a.drop_first() + (seq![' '] + ts.last()));
        assert(joined(d) == a.drop_first());
        lemma_tokens_of_concat(a.drop_first(), ts.last());
        assert(token_ok(ts[ts.len() - 1]));
        lemma_tokens_of_token(ts.last());
        assert(d + seq![ts.last()] =~= ts);
    }
}

proof fn lemma_text_code_front(syms: Seq<char>, w: nat, s: Seq<char>)
    requires
        s.len() > 0,
    ensures
        text_code(syms, w, s) == symbol_code(syms, w, s[0]) + text_code(syms, w, s.drop_first()),
    decreases s.len(),
{
    if s.len() == 1 {
        assert(s.drop_last() =~= Seq::<char>::empty());
        assert(s.drop_first() =~= Seq::<char>::empty());
        assert(text_code(syms, w, s.drop_last()) =~= Seq::<char>::empty());
        assert(text_code(syms, w, s.drop_first()) =~= Seq::<char>::empty());
        assert(text_code(syms, w, s) =~= symbol_code(syms, w, s[0]));
    } else {
        let d = s.drop_last();
        lemma_text_code_front(syms, w, d);
        assert(d.drop_first() == s.drop_first().drop_last());
        assert(s.drop_first().last() == s.last());
        assert(d[0] == s[0]);
        assert(text_code(syms, w, s) =~= symbol_code(syms, w, s[0]) + text_code(
            syms,
            w,
            s.drop_first(),
        ));
    }
}

/// Decoding the codes of a text gives back the text.
proof fn lemma_text_of_text_code(syms: Seq<char>, w: nat, s: Seq<char>)
    requires
        s.len() > 0,
        distinct_chars(syms),
        fits_width(syms.len(), w),
        forall|j: int| 0 <= j < s.len() ==> syms.contains(#[trigger] s[j]),
    ensures
        text_of(text_code(syms, w, s), syms, w) == Some(s),
    decreases s.len(),
{
    lemma_text_code_digits(syms, w, s);
    lemma_text_code_front(syms, w, s);
    assert(syms.contains(s[0]));
    lemma_symbol_code(syms, w, s[0]);
    let code = symbol_code(syms, w, s[0]);
    let d = s.drop_first();
    let t = text_code(syms, w, s);
    assert(t.take(w as int) =~= code);
    assert(t.skip(w as int) =~= text_code(syms, w, d));
    if d.len() == 0 {
        assert(text_code(syms, w, d) =~= Seq::<char>::empty());
        assert(seq![s[0]] + Seq::<char>::empty() =~= s);
    } else {
        assert forall|j: int| 0 <= j < d.len() implies syms.contains(#[trigger] d[j]) by {
            assert(d[j] == s[j + 1]);
        }
        lemma_text_of_text_code(syms, w, d);
        assert(seq![s[0]] + d =~= s);
    }
}

/// Whether one state of the encoding is an earlier point of another.
pub open spec fn extends(a: Coded, b: Coded) -> bool {
    &&& a.tokens.is_prefix_of(b.tokens)
    &&& a.syms.is_prefix_of(b.syms)
    &&& a.tags.is_prefix_of(b.tags)
}

proof fn lemma_extends_trans(a: Coded, b: Coded, c: Coded)
    requires
        extends(a, b),
        extends(b, c),
    ensures
        extends(a, c),
{
    assert(a.tokens =~= c.tokens.subrange(0, a.tokens.len() as int));
    assert(a.syms =~= c.syms.subrange(0, a.syms.len() as int));
    assert(a.tags =~= c.tags.subrange(0, a.tags.len() as int));
}

proof fn lemma_put_tag_extends(c: Coded, letter: char, name: Seq<char>)
    requires
        put_tag_spec(c, letter, name) is Some,
    ensures
        extends(c, put_tag_spec(c, letter, name)->0),
{
    let c2 = put_tag_spec(c, letter, name)->0;
    assert(c.tokens =~= c2.tokens.subrange(0, c.tokens.len() as int));
    assert(c.tags =~= c2.tags.subrange(0, c.tags.len() as int));
    assert(c.syms =~= c2.syms.subrange(0, c.syms.len() as int));
}

proof fn lemma_put_text_extends(c: Coded, w: nat, s: Seq<char>)
    requires
        coded_ok(c, w),
        put_text_spec(c, w, s) is Some,
    ensures
        extends(c, put_text_spec(c, w, s)->0),
{
    let c2 = put_text_spec(c, w, s)->0;
    lemma_symbols_after(c.syms, s, 0);
    assert(c.tokens =~= c2.tokens.subrange(0, c.tokens.len() as int));
    assert(c.tags =~= c2.tags.subrange(0, c.tags.len() as int));
}

proof fn lemma_put_attributes_extends(c: Coded, w: nat, attrs: Seq<XmlAttribute>, m: int)
    requires
        coded_ok(c, w),
        0 <= m <= attrs.len(),
        put_attributes_spec(c, w, attrs) is Some,
    ensures
        put_attributes_spec(c, w, attrs.take(m)) is Some,
        coded_ok(put_attributes_spec(c, w, attrs.take(m))->0, w),
        extends(c, put_attributes_spec(c, w, attrs.take(m))->0),
        extends(put_attributes_spec(c, w, attrs.take(m))->0, put_attributes_spec(c, w, attrs)->0),
    decreases attrs.len(),
{
    if attrs.len() == 0 {
        assert(attrs.take(m) == attrs);
        assert(extends(c, c)) by {
            assert(c.tokens =~= c.tokens.subrange(0, c.tokens.len() as int));
            assert(c.tags =~= c.tags.subrange(0, c.tags.len() as int));
            assert(c.syms =~= c.syms.subrange(0, c.syms.len() as int));
        }
    } else {
        let d = attrs.drop_last();
        let full = put_attributes_spec(c, w, attrs)->0;
        let c1 = put_attributes_spec(c, w, d)->0;
        lemma_put_attributes_extends(c, w, d, d.len() as int);
        assert(d.take(d.len() as int) == d);
        let last = attrs.last();
        let q = qualified(last.prefix, last.local);
        lemma_put_attributes_ok(c, w, d);
        lemma_put_tag_ok(c1, w, 'A', q);
        let c2 = put_tag_spec(c1, 'A', q)->0;
        lemma_put_tag_extends(c1, 'A', q);
        lemma_put_text_extends(c2, w, last.value@);
        lemma_extends_trans(c1, c2, full);
        lemma_put_attributes_ok(c, w, attrs);
        if m == attrs.len() {
            assert(attrs.take(m) == attrs);
            lemma_extends_trans(c, c1, full);
            assert(extends(full, full)) by {
                assert(full.tokens =~= full.tokens.subrange(0, full.tokens.len() as int));
                assert(full.tags =~= full.tags.subrange(0, full.tags.len() as int));
                assert(full.syms =~= full.syms.subrange(0, full.syms.len() as int));
            }
        } else {
            lemma_put_attributes_extends(c, w, d, m);
            assert(d.take(m) == attrs.take(m));
            lemma_extends_trans(put_attributes_spec(c, w, attrs.take(m))->0, c1, full);
        }
    }
}

/// The state of the encoding after the first `k` events.
pub open spec fn coded_after(c0: Coded, w: nat, items: Seq<XmlItem>, k: int) -> Coded {
    encode_items_spec(c0, w, items.take(k))->0
}

proof fn lemma_extends_refl(c: Coded)
    ensures
        extends(c, c),
{
    assert(c.tokens =~= c.tokens.subrange(0, c.tokens.len() as int));
    assert(c.tags =~= c.tags.subrange(0, c.tags.len() as int));
    assert(c.syms =~= c.syms.subrange(0, c.syms.len() as int));
}

proof fn lemma_encode_item_extends(c: Coded, w: nat, item: XmlItem)
    requires
        coded_ok(c, w),
        encode_item_spec(c, w, item) is Some,
    ensures
        extends(c, encode_item_spec(c, w, item)->0),
{
    match item {
        XmlItem::Start { prefix, local, attributes } => {
            let q = qualified(prefix, local);
            lemma_put_tag_ok(c, w, 'T', q);
            lemma_put_tag_extends(c, 'T', q);
            let c1 = put_tag_spec(c, 'T', q)->0;
            lemma_put_attributes_extends(c1, w, attributes@, attributes@.len() as int);
            assert(attributes@.take(attributes@.len() as int) == attributes@);
            lemma_extends_trans(c, c1, encode_item_spec(c, w, item)->0);
        },
        XmlItem::End => {
            let c2 = encode_item_spec(c, w, item)->0;
            assert(c.tokens =~= c2.tokens.subrange(0, c.tokens.len() as int));
            lemma_extends_refl(c);
        },
        XmlItem::Text(t) => {
            lemma_put_text_extends(c, w, t@);
        },
        _ => {
            lemma_extends_refl(c);
        },
    }
}

proof fn lemma_encode_items_extends(c: Coded, w: nat, items: Seq<XmlItem>, k: int)
    requires
        coded_ok(c, w),
        0 <= k <= items.len(),
        encode_items_spec(c, w, items) is Some,
    ensures
        encode_items_spec(c, w, items.take(k)) is Some,
        coded_ok(coded_after(c, w, items, k), w),
        extends(c, coded_after(c, w, items, k)),
        extends(coded_after(c, w, items, k), encode_items_spec(c, w, items)->0),
    decreases items.len(),
{
    let full = encode_items_spec(c, w, items)->0;
    if items.len() == 0 {
        assert(items.take(k) == items);
        lemma_extends_refl(c);
    } else {
        let d = items.drop_last();
        lemma_encode_items_extends(c, w, d, d.len() as int);
        assert(d.take(d.len() as int) == d);
        let c1 = encode_items_spec(c, w, d)->0;
        lemma_encode_items_ok(c, w, d);
        lemma_encode_item_extends(c1, w, items.last());
        lemma_encode_items_ok(c, w, items);
        if k == items.len() {
            assert(items.take(k) == items);
            lemma_extends_trans(c, c1, full);
            lemma_extends_refl(full);
        } else {
            lemma_encode_items_extends(c, w, d, k);
            assert(d.take(k) == items.take(k));
            lemma_extends_trans(coded_after(c, w, items, k), c1, full);
        }
    }
}

/// One event's step: the state after `k + 1` events follows from the state after `k`.
proof fn lemma_coded_after_step(c0: Coded, w: nat, items: Seq<XmlItem>, k: int)
    requires
        0 <= k < items.len(),
        encode_items_spec(c0, w, items.take(k + 1)) is Some,
    ensures
        encode_item_spec(coded_after(c0, w, items, k), w, items[k]) == Some(
            coded_after(c0, w, items, k + 1),
        ),
{
    assert(items.take(k + 1).drop_last() == items.take(k));
    assert(items.take(k + 1).last() == items[k]);
}

/// The text of a start tag's attributes, each as ` name="value"`.
pub open spec fn attributes_text(attrs: Seq<XmlAttribute>) -> Seq<char>
    decreases attrs.len(),
{
    if attrs.len() == 0 {
        Seq::empty()
    } else {
        attr_text(qualified(attrs[0].prefix, attrs[0].local), attrs[0].value@) + attributes_text(
            attrs.drop_first(),
        )
    }
}

/// The canonical XML text of the events from `k` on, with `stack` the open
/// elements: empty elements written out in full, attributes in order with
/// double quotes, text as it is; `None` where an end tag has nothing to close
/// or an event is not supported.
pub open spec fn canonical_from(items: Seq<XmlItem>, k: int, stack: Seq<Seq<char>>) -> Option<
    Seq<char>,
>
    decreases items.len() - k,
{
    if k < 0 || k >= items.len() {
        Some(Seq::empty())
    } else {
        match items[k] {
            XmlItem::Other => canonical_from(items, k + 1, stack),
            XmlItem::Start { prefix, local, attributes } => {
                let q = qualified(prefix, local);
                prepend(
                    seq!['<'] + q + attributes_text(attributes@) + seq!['>'],
                    canonical_from(items, k + 1, stack.push(q)),
                )
            },
            XmlItem::End => if stack.len() == 0 {
                None
            } else {
                prepend(
                    seq!['<', '/'] + stack.last() + seq!['>'],
                    canonical_from(items, k + 1, stack.drop_last()),
                )
            },
            XmlItem::Text(s) => prepend(s@, canonical_from(items, k + 1, stack)),
            XmlItem::Unsupported => None,
            XmlItem::Malformed(_) => None,
        }
    }
}

/// The canonical XML text of a run of events.
pub open spec fn canonical(items: Seq<XmlItem>) -> Option<Seq<char>> {
    canonical_from(items, 0, Seq::empty())
}

/// Whether an event is a start tag whose last attribute has an empty value.
pub open spec fn ends_with_empty_attribute(item: XmlItem) -> bool {
    match item {
        XmlItem::Start { attributes, .. } => attributes@.len() > 0
            && attributes@.last().value@.len() == 0,
        _ => false,
    }
}

/// Whether the first event from `m` on that writes a token is not text.
pub open spec fn no_text_next(items: Seq<XmlItem>, m: int) -> bool
    decreases items.len() - m,
{
    if m < 0 || m >= items.len() {
        true
    } else {
        match items[m] {
            XmlItem::Other => no_text_next(items, m + 1),
            XmlItem::Text(s) => s@.len() == 0 && no_text_next(items, m + 1),
            _ => true,
        }
    }
}

/// Whether no start tag whose last attribute value is empty is followed, before
/// any other token, by text: there the text would be read as that value.
pub open spec fn attribute_values_separable(items: Seq<XmlItem>) -> bool {
    forall|k: int|
        0 <= k < items.len() && ends_with_empty_attribute(#[trigger] items[k]) ==> no_text_next(
            items,
            k + 1,
        )
}

/// No token at the start of an event's tokens names an attribute; and where no
/// text comes next, none is text.
proof fn lemma_boundary(c0: Coded, w: nat, items: Seq<XmlItem>, k: int)
    requires
        coded_ok(c0, w),
        encode_items_spec(c0, w, items) is Some,
        0 <= k <= items.len(),
    ensures
        ({
            let tokens = encode_items_spec(c0, w, items)->0.tokens;
            let j = coded_after(c0, w, items, k).tokens.len() as int;
            &&& !next_is_attr(tokens, j)
            &&& j < tokens.len() && no_text_next(items, k) ==> !is_text_token(tokens[j])
        }),
    decreases items.len() - k,
{
    let full = encode_items_spec(c0, w, items)->0;
    let tokens = full.tokens;
    lemma_encode_items_extends(c0, w, items, k);
    let ck = coded_after(c0, w, items, k);
    let j = ck.tokens.len() as int;
    if k < items.len() {
        lemma_encode_items_extends(c0, w, items, k + 1);
        lemma_coded_after_step(c0, w, items, k);
        let ck1 = coded_after(c0, w, items, k + 1);
        lemma_encode_item_extends(ck, w, items[k]);
        assert(j <= ck1.tokens.len());
        match items[k] {
            XmlItem::Start { prefix, local, attributes } => {
                let q = qualified(prefix, local);
                lemma_put_tag_ok(ck, w, 'T', q);
                let c1 = put_tag_spec(ck, 'T', q)->0;
                lemma_put_attributes_extends(c1, w, attributes@, attributes@.len() as int);
                assert(attributes@.take(attributes@.len() as int) == attributes@);
                assert(c1.tokens[j] == seq!['T'] + decimal(tag_index(c1.tags, q) as nat));
                assert(ck1.tokens[j] == c1.tokens[j]);
                assert(tokens[j] == ck1.tokens[j]);
                assert(tokens[j][0] == 'T');
                assert(!is_digit(tokens[j][0]));
            },
            XmlItem::End => {
                assert(ck1.tokens[j] == seq!['0']);
                assert(tokens[j] == ck1.tokens[j]);
                assert(tokens[j] =~= seq!['0']);
            },
            XmlItem::Text(s) => {
                if s@.len() == 0 {
                    assert(ck1.tokens == ck.tokens);
                    lemma_boundary(c0, w, items, k + 1);
                } else {
                    let syms = symbols_after(ck.syms, s@);
                    lemma_symbols_after(ck.syms, s@, 0);
                    lemma_text_code_digits(syms, w, s@);
                    let t = text_code(syms, w, s@);
                    assert(t.len() > 0) by (nonlinear_arith)
                        requires
                            t.len() == s@.len() * w,
                            s@.len() > 0,
                            w > 0,
                    ;
                    assert(ck1.tokens[j] == t);
                    assert(tokens[j] == ck1.tokens[j]);
                    assert(is_digit(t[0]));
                }
            },
            XmlItem::Other => {
                assert(ck1.tokens == ck.tokens);
                lemma_boundary(c0, w, items, k + 1);
            },
            _ => {},
        }
    } else {
        assert(items.take(k) == items);
    }
}

/// The name behind a `T` or `A` token that the encoder wrote.
proof fn lemma_name_token(c: Coded, letter: char, name: Seq<char>, tags: Seq<Seq<char>>)
    requires
        put_tag_spec(c, letter, name) is Some,
        put_tag_spec(c, letter, name)->0.tags.is_prefix_of(tags),
    ensures
        put_tag_spec(c, letter, name)->0.tokens.last() == seq![letter] + decimal(
            tag_index(with_tag(c.tags, name), name) as nat,
        ),
        tag_name_of(put_tag_spec(c, letter, name)->0.tokens.last().drop_first(), tags) == Some(
            name,
        ),
{
    let t = with_tag(c.tags, name);
    let code = tag_index(t, name);
    if !c.tags.contains(name) {
        assert(t[c.tags.len() as int] == name);
    }
    assert(t.contains(name));
    assert(0 <= code < t.len() && t[code] == name);
    lemma_decimal(code as nat);
    let tok = put_tag_spec(c, letter, name)->0.tokens.last();
    assert(tok.drop_first() =~= decimal(code as nat));
    assert(parsed_number(decimal(code as nat), 65535) == Some(code as nat));
    assert(tags[code] == t[code]);
}

proof fn lemma_prefix_index<A>(a: Seq<A>, b: Seq<A>, i: int)
    requires
        a.is_prefix_of(b),
        0 <= i < a.len(),
    ensures
        b[i] == a[i],
{
    assert(a[i] == b.subrange(0, a.len() as int)[i]);
}

proof fn lemma_prefix_contains(a: Seq<char>, b: Seq<char>, s: Seq<char>)
    requires
        a.is_prefix_of(b),
        forall|j: int| 0 <= j < s.len() ==> a.contains(#[trigger] s[j]),
    ensures
        forall|j: int| 0 <= j < s.len() ==> b.contains(#[trigger] s[j]),
{
    assert forall|j: int| 0 <= j < s.len() implies b.contains(#[trigger] s[j]) by {
        assert(a.contains(s[j]));
        let i = choose|i: int| 0 <= i < a.len() && a[i] == s[j];
        lemma_prefix_index(a, b, i);
    }
}

proof fn lemma_attributes_text_skip(attrs: Seq<XmlAttribute>, m: int)
    requires
        0 <= m < attrs.len(),
    ensures
        attributes_text(attrs.skip(m)) == attr_text(
            qualified(attrs[m].prefix, attrs[m].local),
            attrs[m].value@,
        ) + attributes_text(attrs.skip(m + 1)),
{
    assert(attrs.skip(m).drop_first() == attrs.skip(m + 1));
    assert(attrs.skip(m)[0] == attrs[m]);
}

/// A text token decodes, under the final symbols, to the text that wrote it.
proof fn lemma_text_token(ct: Coded, w: nat, v: Seq<char>, syms: Seq<char>)
    requires
        coded_ok(ct, w),
        put_text_spec(ct, w, v) is Some,
        v.len() > 0,
        put_text_spec(ct, w, v)->0.syms.is_prefix_of(syms),
        distinct_chars(syms),
        fits_width(syms.len(), w),
    ensures
        is_text_token(put_text_spec(ct, w, v)->0.tokens.last()),
        text_of(put_text_spec(ct, w, v)->0.tokens.last(), syms, w) == Some(v),
{
    let c2 = put_text_spec(ct, w, v)->0;
    let sy = c2.syms;
    lemma_symbols_after(ct.syms, v, 0);
    lemma_put_text_ok(ct, w, v);
    lemma_text_code_digits(sy, w, v);
    let tt = text_code(sy, w, v);
    assert(c2.tokens.last() == tt);
    assert(tt.len() > 0) by (nonlinear_arith)
        requires
            tt.len() == v.len() * w,
            v.len() > 0,
            w > 0,
    ;
    lemma_text_code_stable(sy, syms, w, v);
    lemma_prefix_contains(sy, syms, v);
    lemma_text_of_text_code(syms, w, v);
}

/// Where the tokens of a start tag's `m`-th attribute start.
pub open spec fn attribute_at(
    c0: Coded,
    w: nat,
    items: Seq<XmlItem>,
    k: int,
    prefix: Option<String>,
    local: String,
    attrs: Seq<XmlAttribute>,
    m: int,
) -> int {
    let c1 = put_tag_spec(coded_after(c0, w, items, k), 'T', qualified(prefix, local))->0;
    put_attributes_spec(c1, w, attrs.take(m))->0.tokens.len() as int
}

/// What the tokens of a start tag's `m`-th attribute look like in the output.
proof fn lemma_attribute_tokens(
    c0: Coded,
    w: nat,
    items: Seq<XmlItem>,
    k: int,
    prefix: Option<String>,
    local: String,
    attributes: Vec<XmlAttribute>,
    m: int,
)
    requires
        coded_ok(c0, w),
        encode_items_spec(c0, w, items) is Some,
        attribute_values_separable(items),
        0 <= k < items.len(),
        items[k] == (XmlItem::Start { prefix, local, attributes }),
        0 <= m < attributes@.len(),
    ensures
        ({
            let full = encode_items_spec(c0, w, items)->0;
            let tokens = full.tokens;
            let attrs = attributes@;
            let a = attribute_at(c0, w, items, k, prefix, local, attrs, m);
            let after = attribute_at(c0, w, items, k, prefix, local, attrs, m + 1);
            let am = attrs[m];
            let v = am.value@;
            &&& after == a + 1 + if v.len() > 0 {
                1int
            } else {
                0int
            }
            &&& m + 1 == attrs.len() ==> after == coded_after(c0, w, items, k + 1).tokens.len()
            &&& a < tokens.len() && tokens[a].len() > 0 && tokens[a][0] == 'A'
            &&& tag_name_of(tokens[a].drop_first(), full.tags) == Some(
                qualified(am.prefix, am.local),
            )
            &&& v.len() > 0 ==> a + 1 < tokens.len() && is_text_token(tokens[a + 1]) && text_of(
                tokens[a + 1],
                full.syms,
                w,
            ) == Some(v)
            &&& v.len() == 0 && a + 1 < tokens.len() ==> !is_text_token(tokens[a + 1])
            &&& m + 1 < attrs.len() ==> next_is_attr(tokens, after)
            &&& m + 1 == attrs.len() ==> !next_is_attr(tokens, after)
        }),
{
    let full = encode_items_spec(c0, w, items)->0;
    let tokens = full.tokens;
    let attrs = attributes@;
    let q = qualified(prefix, local);
    lemma_encode_items_ok(c0, w, items);
    lemma_encode_items_extends(c0, w, items, k);
    lemma_encode_items_extends(c0, w, items, k + 1);
    lemma_coded_after_step(c0, w, items, k);
    let ck = coded_after(c0, w, items, k);
    let ck1 = coded_after(c0, w, items, k + 1);
    lemma_put_tag_ok(ck, w, 'T', q);
    let c1 = put_tag_spec(ck, 'T', q)->0;
    assert(ck1 == put_attributes_spec(c1, w, attrs)->0);
    lemma_put_attributes_extends(c1, w, attrs, m);
    lemma_put_attributes_extends(c1, w, attrs, m + 1);
    let cm = put_attributes_spec(c1, w, attrs.take(m))->0;
    let cm1 = put_attributes_spec(c1, w, attrs.take(m + 1))->0;
    assert(attrs.take(m + 1).drop_last() == attrs.take(m));
    assert(attrs.take(m + 1).last() == attrs[m]);
    let am = attrs[m];
    let qm = qualified(am.prefix, am.local);
    let v = am.value@;
    lemma_put_tag_ok(cm, w, 'A', qm);
    lemma_put_tag_extends(cm, 'A', qm);
    let ct = put_tag_spec(cm, 'A', qm)->0;
    assert(cm1 == put_text_spec(ct, w, v)->0);
    lemma_put_text_extends(ct, w, v);
    lemma_extends_trans(cm1, ck1, full);
    lemma_extends_trans(ct, cm1, full);
    let a = cm.tokens.len() as int;
    lemma_name_token(cm, 'A', qm, full.tags);
    lemma_prefix_index(ct.tokens, tokens, a);
    assert(tokens[a] == ct.tokens.last());
    if v.len() > 0 {
        lemma_text_token(ct, w, v, full.syms);
        lemma_prefix_index(cm1.tokens, tokens, a + 1);
    } else {
        assert(cm1.tokens == ct.tokens);
    }
    let after = cm1.tokens.len() as int;
    if m + 1 < attrs.len() {
        lemma_put_attributes_extends(c1, w, attrs, m + 2);
        assert(attrs.take(m + 2).drop_last() == attrs.take(m + 1));
        let an = attrs[m + 1];
        let qn = qualified(an.prefix, an.local);
        assert(attrs.take(m + 2).last() == an);
        lemma_put_tag_ok(cm1, w, 'A', qn);
        lemma_put_tag_extends(cm1, 'A', qn);
        let cn = put_tag_spec(cm1, 'A', qn)->0;
        let cm2 = put_attributes_spec(c1, w, attrs.take(m + 2))->0;
        lemma_put_text_extends(cn, w, an.value@);
        lemma_extends_trans(cm2, ck1, full);
        lemma_extends_trans(cn, cm2, full);
        lemma_prefix_index(cn.tokens, tokens, after);
        assert(tokens[after][0] == 'A');
        assert(!is_digit(tokens[after][0]));
    } else {
        assert(attrs.take(m + 1) == attrs);
        lemma_boundary(c0, w, items, k + 1);
        if v.len() == 0 {
            assert(ends_with_empty_attribute(items[k]));
        }
    }
}

/// Decoding one attribute's tokens.
proof fn lemma_decode_attribute_token(
    tokens: Seq<Seq<char>>,
    a: int,
    after: int,
    stack: Seq<Seq<char>>,
    syms: Seq<char>,
    w: nat,
    tags: Seq<Seq<char>>,
    name: Seq<char>,
    v: Seq<char>,
)
    requires
        0 <= a < tokens.len(),
        tokens[a].len() > 0,
        tokens[a][0] == 'A',
        tag_name_of(tokens[a].drop_first(), tags) == Some(name),
        v.len() > 0 ==> after == a + 2 && a + 1 < tokens.len() && is_text_token(tokens[a + 1])
            && text_of(tokens[a + 1], syms, w) == Some(v),
        v.len() == 0 ==> after == a + 1 && (a + 1 < tokens.len() ==> !is_text_token(
            tokens[a + 1],
        )),
    ensures
        decode_from(tokens, a, stack, syms, w, tags) == prepend(
            attr_text(name, v) + tag_end(tokens, after),
            decode_from(tokens, after, stack, syms, w, tags),
        ),
{
    if v.len() == 0 {
        assert(attr_text(name, v) =~= attr_text(name, Seq::empty()));
    }
}

/// Decoding the tokens of a start tag's attributes from the `m`-th on.
proof fn lemma_decode_attributes(
    c0: Coded,
    w: nat,
    items: Seq<XmlItem>,
    k: int,
    prefix: Option<String>,
    local: String,
    attributes: Vec<XmlAttribute>,
    m: int,
    stack: Seq<Seq<char>>,
)
    requires
        coded_ok(c0, w),
        encode_items_spec(c0, w, items) is Some,
        attribute_values_separable(items),
        0 <= k < items.len(),
        items[k] == (XmlItem::Start { prefix, local, attributes }),
        0 <= m < attributes@.len(),
    ensures
        ({
            let full = encode_items_spec(c0, w, items)->0;
            decode_from(
                full.tokens,
                attribute_at(c0, w, items, k, prefix, local, attributes@, m),
                stack,
                full.syms,
                w,
                full.tags,
            ) == prepend(
                attributes_text(attributes@.skip(m)) + seq!['>'],
                decode_from(
                    full.tokens,
                    coded_after(c0, w, items, k + 1).tokens.len() as int,
                    stack,
                    full.syms,
                    w,
                    full.tags,
                ),
            )
        }),
    decreases attributes@.len() - m,
{
    let full = encode_items_spec(c0, w, items)->0;
    let tokens = full.tokens;
    let attrs = attributes@;
    let a = attribute_at(c0, w, items, k, prefix, local, attrs, m);
    let after = attribute_at(c0, w, items, k, prefix, local, attrs, m + 1);
    let am = attrs[m];
    let qm = qualified(am.prefix, am.local);
    let v = am.value@;
    lemma_attribute_tokens(c0, w, items, k, prefix, local, attributes, m);
    lemma_decode_attribute_token(tokens, a, after, stack, full.syms, w, full.tags, qm, v);
    lemma_attributes_text_skip(attrs, m);
    let rest = decode_from(
        tokens,
        coded_after(c0, w, items, k + 1).tokens.len() as int,
        stack,
        full.syms,
        w,
        full.tags,
    );
    if m + 1 < attrs.len() {
        lemma_decode_attributes(c0, w, items, k, prefix, local, attributes, m + 1, stack);
        assert(tag_end(tokens, after) =~= Seq::<char>::empty());
        lemma_prepend_twice(attr_text(qm, v), attributes_text(attrs.skip(m + 1)) + seq!['>'], rest);
        assert(attr_text(qm, v) + tag_end(tokens, after) =~= attr_text(qm, v));
        assert(attr_text(qm, v) + (attributes_text(attrs.skip(m + 1)) + seq!['>'])
            =~= attributes_text(attrs.skip(m)) + seq!['>']);
    } else {
        assert(tag_end(tokens, after) =~= seq!['>']);
        assert(attrs.skip(m + 1) =~= Seq::<XmlAttribute>::empty());
        assert(attributes_text(attrs.skip(m + 1)) =~= Seq::<char>::empty());
        assert(attr_text(qm, v) + tag_end(tokens, after) =~= attributes_text(attrs.skip(m))
            + seq!['>']);
    }
}

proof fn lemma_prepend_empty(o: Option<Seq<char>>)
    ensures
        prepend(Seq::empty(), o) == o,
{
    match o {
        Some(r) => {
            assert(Seq::<char>::empty() + r =~= r);
        },
        None => {},
    }
}

/// Decoding the tokens of a start tag.
proof fn lemma_decode_start(
    c0: Coded,
    w: nat,
    items: Seq<XmlItem>,
    k: int,
    prefix: Option<String>,
    local: String,
    attributes: Vec<XmlAttribute>,
    stack: Seq<Seq<char>>,
)
    requires
        coded_ok(c0, w),
        encode_items_spec(c0, w, items) is Some,
        attribute_values_separable(items),
        0 <= k < items.len(),
        items[k] == (XmlItem::Start { prefix, local, attributes }),
        ({
            let full = encode_items_spec(c0, w, items)->0;
            decode_from(
                full.tokens,
                coded_after(c0, w, items, k + 1).tokens.len() as int,
                stack.push(qualified(prefix, local)),
                full.syms,
                w,
                full.tags,
            ) == canonical_from(items, k + 1, stack.push(qualified(prefix, local)))
        }),
    ensures
        ({
            let full = encode_items_spec(c0, w, items)->0;
            decode_from(
                full.tokens,
                coded_after(c0, w, items, k).tokens.len() as int,
                stack,
                full.syms,
                w,
                full.tags,
            ) == canonical_from(items, k, stack)
        }),
{
    let full = encode_items_spec(c0, w, items)->0;
    let tokens = full.tokens;
    let attrs = attributes@;
    let q = qualified(prefix, local);
    let pushed = stack.push(q);
    lemma_encode_items_ok(c0, w, items);
    lemma_encode_items_extends(c0, w, items, k);
    lemma_encode_items_extends(c0, w, items, k + 1);
    lemma_coded_after_step(c0, w, items, k);
    let ck = coded_after(c0, w, items, k);
    let ck1 = coded_after(c0, w, items, k + 1);
    lemma_put_tag_ok(ck, w, 'T', q);
    lemma_put_tag_extends(ck, 'T', q);
    let c1 = put_tag_spec(ck, 'T', q)->0;
    assert(ck1 == put_attributes_spec(c1, w, attrs)->0);
    lemma_put_attributes_extends(c1, w, attrs, 0);
    assert(attrs.take(0) =~= Seq::<XmlAttribute>::empty());
    assert(attrs.take(attrs.len() as int) == attrs);
    lemma_put_attributes_extends(c1, w, attrs, attrs.len() as int);
    lemma_extends_trans(c1, ck1, full);
    let j = ck.tokens.len() as int;
    lemma_name_token(ck, 'T', q, full.tags);
    lemma_prefix_index(c1.tokens, tokens, j);
    assert(tokens[j] == c1.tokens.last());
    assert(tokens[j][0] == 'T');
    let rest = decode_from(tokens, ck1.tokens.len() as int, pushed, full.syms, w, full.tags);
    assert(decode_from(tokens, j, stack, full.syms, w, full.tags) == prepend(
        seq!['<'] + q + tag_end(tokens, j + 1),
        decode_from(tokens, j + 1, pushed, full.syms, w, full.tags),
    ));
    if attrs.len() == 0 {
        assert(ck1 == c1);
        lemma_boundary(c0, w, items, k + 1);
        assert(attributes_text(attrs) =~= Seq::<char>::empty());
        assert(seq!['<'] + q + tag_end(tokens, j + 1) =~= seq!['<'] + q + attributes_text(attrs)
            + seq!['>']);
    } else {
        lemma_attribute_tokens(c0, w, items, k, prefix, local, attributes, 0);
        assert(attribute_at(c0, w, items, k, prefix, local, attrs, 0) == j + 1);
        lemma_decode_attributes(c0, w, items, k, prefix, local, attributes, 0, pushed);
        assert(attrs.skip(0) == attrs);
        assert(tag_end(tokens, j + 1) =~= Seq::<char>::empty());
        lemma_prepend_twice(seq!['<'] + q, attributes_text(attrs) + seq!['>'], rest);
        assert(seq!['<'] + q + tag_end(tokens, j + 1) =~= seq!['<'] + q);
        assert(seq!['<'] + q + (attributes_text(attrs) + seq!['>']) =~= seq!['<'] + q
            + attributes_text(attrs) + seq!['>']);
    }
}

/// Decoding the tokens of every event from the `k`-th on gives their canonical text.
proof fn lemma_decode_suffix(c0: Coded, w: nat, items: Seq<XmlItem>, k: int, stack: Seq<Seq<char>>)
    requires
        coded_ok(c0, w),
        encode_items_spec(c0, w, items) is Some,
        attribute_values_separable(items),
        0 <= k <= items.len(),
    ensures
        ({
            let full = encode_items_spec(c0, w, items)->0;
            decode_from(
                full.tokens,
                coded_after(c0, w, items, k).tokens.len() as int,
                stack,
                full.syms,
                w,
                full.tags,
            ) == canonical_from(items, k, stack)
        }),
    decreases items.len() - k,
{
    let full = encode_items_spec(c0, w, items)->0;
    let tokens = full.tokens;
    lemma_encode_items_ok(c0, w, items);
    lemma_encode_items_extends(c0, w, items, k);
    let ck = coded_after(c0, w, items, k);
    let j = ck.tokens.len() as int;
    if k == items.len() {
        assert(items.take(k) == items);
        assert(j == tokens.len());
    } else {
        lemma_encode_items_extends(c0, w, items, k + 1);
        lemma_coded_after_step(c0, w, items, k);
        let ck1 = coded_after(c0, w, items, k + 1);
        lemma_encode_item_extends(ck, w, items[k]);
        lemma_extends_trans(ck, ck1, full);
        match items[k] {
            XmlItem::Start { prefix, local, attributes } => {
                lemma_decode_suffix(c0, w, items, k + 1, stack.push(qualified(prefix, local)));
                lemma_decode_start(c0, w, items, k, prefix, local, attributes, stack);
            },
            XmlItem::End => {
                lemma_prefix_index(ck1.tokens, tokens, j);
                assert(tokens[j] == seq!['0']);
                assert(ck1.tokens.len() == j + 1);
                if stack.len() > 0 {
                    lemma_decode_suffix(c0, w, items, k + 1, stack.drop_last());
                }
            },
            XmlItem::Text(s) => {
                lemma_decode_suffix(c0, w, items, k + 1, stack);
                if s@.len() == 0 {
                    assert(ck1.tokens == ck.tokens);
                    lemma_prepend_empty(canonical_from(items, k + 1, stack));
                } else {
                    lemma_text_token(ck, w, s@, full.syms);
                    lemma_prefix_index(ck1.tokens, tokens, j);
                    assert(tokens[j] == ck1.tokens.last());
                    assert(is_digit(tokens[j][0]));
                    assert(ck1.tokens.len() == j + 1);
                }
            },
            XmlItem::Other => {
                lemma_decode_suffix(c0, w, items, k + 1, stack);
            },
            _ => {},
        }
    }
}

/// Decoding what the encoder wrote, with the tables it left, gives the events'
/// canonical XML text: every empty element written out in full, attributes in
/// their order with double quotes, text as the parser gave it. This holds for
/// every run of events that encodes, except where an empty attribute value ends
/// a start tag and text comes right after it.
pub proof fn lemma_xmln_round_trip(
    syms: Seq<char>,
    tags: Seq<Seq<char>>,
    w: nat,
    items: Seq<XmlItem>,
)
    requires
        distinct_chars(syms),
        fits_width(syms.len(), w),
        encode_items_spec(start(syms, tags), w, items) is Some,
        attribute_values_separable(items),
    ensures
        ({
            let c = encode_items_spec(start(syms, tags), w, items)->0;
            decoded_xmln(joined(c.tokens), c.syms, w, c.tags) == canonical(items)
        }),
{
    let c0 = start(syms, tags);
    let c = encode_items_spec(c0, w, items)->0;
    lemma_encode_items_ok(c0, w, items);
    lemma_tokens_of_joined(c.tokens);
    lemma_decode_suffix(c0, w, items, 0, Seq::empty());
    assert(items.take(0) =~= Seq::<XmlItem>::empty());
}

/// Whether every text token reads as the codes of characters of `syms`, `w`
/// digits each.
pub open spec fn text_tokens_decode(tokens: Seq<Seq<char>>, syms: Seq<char>, w: nat) -> bool {
    forall|k: int|
        0 <= k < tokens.len() && is_text_token(#[trigger] tokens[k]) ==> text_of(tokens[k], syms, w)
            is Some
}

/// Whether every `T` or `A` token carries the code of a name of `tags`.
pub open spec fn name_tokens_decode(tokens: Seq<Seq<char>>, tags: Seq<Seq<char>>) -> bool {
    forall|k: int|
        0 <= k < tokens.len() && #[trigger] tokens[k].len() > 0 && (tokens[k][0] == 'T'
            || tokens[k][0] == 'A') ==> tag_name_of(tokens[k].drop_first(), tags) is Some
}

/// Whether every token reads under the given tables.
pub open spec fn tokens_read(
    tokens: Seq<Seq<char>>,
    syms: Seq<char>,
    w: nat,
    tags: Seq<Seq<char>>,
) -> bool {
    text_tokens_decode(tokens, syms, w) && name_tokens_decode(tokens, tags)
}

proof fn lemma_push_token_reads(
    tokens: Seq<Seq<char>>,
    t: Seq<char>,
    syms: Seq<char>,
    w: nat,
    tags: Seq<Seq<char>>,
)
    requires
        tokens_read(tokens, syms, w, tags),
        is_text_token(t) ==> text_of(t, syms, w) is Some,
        t.len() > 0 && (t[0] == 'T' || t[0] == 'A') ==> tag_name_of(t.drop_first(), tags) is Some,
    ensures
        tokens_read(tokens.push(t), syms, w, tags),
{
    let u = tokens.push(t);
    assert forall|k: int| 0 <= k < u.len() && is_text_token(#[trigger] u[k]) implies text_of(
        u[k],
        syms,
        w,
    ) is Some by {
        if k < tokens.len() {
            assert(u[k] == tokens[k]);
        }
    }
    assert forall|k: int|
        0 <= k < u.len() && #[trigger] u[k].len() > 0 && (u[k][0] == 'T' || u[k][0] == 'A') implies tag_name_of(
        u[k].drop_first(),
        tags,
    ) is Some by {
        if k < tokens.len() {
            assert(u[k] == tokens[k]);
        }
    }
}

proof fn lemma_put_tag_reads(
    c: Coded,
    letter: char,
    name: Seq<char>,
    syms: Seq<char>,
    w: nat,
    tags: Seq<Seq<char>>,
)
    requires
        letter == 'T' || letter == 'A',
        put_tag_spec(c, letter, name) is Some,
        put_tag_spec(c, letter, name)->0.tags.is_prefix_of(tags),
        tokens_read(c.tokens, syms, w, tags),
    ensures
        tokens_read(put_tag_spec(c, letter, name)->0.tokens, syms, w, tags),
{
    let t = put_tag_spec(c, letter, name)->0.tokens.last();
    lemma_name_token(c, letter, name, tags);
    assert(t[0] == letter);
    assert(!is_digit(t[0]));
    lemma_push_token_reads(c.tokens, t, syms, w, tags);
    assert(c.tokens.push(t) == put_tag_spec(c, letter, name)->0.tokens);
}

proof fn lemma_put_text_reads(c: Coded, w: nat, v: Seq<char>, syms: Seq<char>, tags: Seq<Seq<char>>)
    requires
        coded_ok(c, w),
        put_text_spec(c, w, v) is Some,
        put_text_spec(c, w, v)->0.syms.is_prefix_of(syms),
        distinct_chars(syms),
        fits_width(syms.len(), w),
        tokens_read(c.tokens, syms, w, tags),
    ensures
        tokens_read(put_text_spec(c, w, v)->0.tokens, syms, w, tags),
{
    let c2 = put_text_spec(c, w, v)->0;
    if v.len() > 0 {
        lemma_text_token(c, w, v, syms);
        let t = c2.tokens.last();
        lemma_symbols_after(c.syms, v, 0);
        lemma_text_code_digits(c2.syms, w, v);
        assert(is_digit(t[0]));
        lemma_push_token_reads(c.tokens, t, syms, w, tags);
        assert(c.tokens.push(t) == c2.tokens);
    }
}

proof fn lemma_attributes_read(c: Coded, w: nat, attrs: Seq<XmlAttribute>, full: Coded)
    requires
        coded_ok(c, w),
        put_attributes_spec(c, w, attrs) is Some,
        extends(put_attributes_spec(c, w, attrs)->0, full),
        coded_ok(full, w),
        tokens_read(c.tokens, full.syms, w, full.tags),
    ensures
        tokens_read(put_attributes_spec(c, w, attrs)->0.tokens, full.syms, w, full.tags),
    decreases attrs.len(),
{
    if attrs.len() > 0 {
        let d = attrs.drop_last();
        lemma_put_attributes_extends(c, w, attrs, d.len() as int);
        assert(attrs.take(d.len() as int) == d);
        let c1 = put_attributes_spec(c, w, d)->0;
        let last = attrs.last();
        let q = qualified(last.prefix, last.local);
        lemma_put_tag_ok(c1, w, 'A', q);
        lemma_put_tag_extends(c1, 'A', q);
        let c2 = put_tag_spec(c1, 'A', q)->0;
        lemma_put_text_extends(c2, w, last.value@);
        let c3 = put_attributes_spec(c, w, attrs)->0;
        lemma_extends_trans(c1, c2, c3);
        lemma_extends_trans(c1, c3, full);
        lemma_extends_trans(c2, c3, full);
        lemma_attributes_read(c, w, d, full);
        lemma_put_tag_reads(c1, 'A', q, full.syms, w, full.tags);
        lemma_put_text_reads(c2, w, last.value@, full.syms, full.tags);
    }
}

proof fn lemma_items_read(c0: Coded, w: nat, items: Seq<XmlItem>, k: int)
    requires
        coded_ok(c0, w),
        c0.tokens.len() == 0,
        encode_items_spec(c0, w, items) is Some,
        0 <= k <= items.len(),
    ensures
        tokens_read(
            coded_after(c0, w, items, k).tokens,
            encode_items_spec(c0, w, items)->0.syms,
            w,
            encode_items_spec(c0, w, items)->0.tags,
        ),
    decreases k,
{
    let full = encode_items_spec(c0, w, items)->0;
    lemma_encode_items_ok(c0, w, items);
    lemma_encode_items_extends(c0, w, items, k);
    if k == 0 {
        assert(items.take(0) =~= Seq::<XmlItem>::empty());
    } else {
        lemma_items_read(c0, w, items, k - 1);
        lemma_encode_items_extends(c0, w, items, k - 1);
        lemma_coded_after_step(c0, w, items, k - 1);
        let ck = coded_after(c0, w, items, k - 1);
        let ck1 = coded_after(c0, w, items, k);
        lemma_encode_item_extends(ck, w, items[k - 1]);
        lemma_extends_trans(ck, ck1, full);
        match items[k - 1] {
            XmlItem::Start { prefix, local, attributes } => {
                let q = qualified(prefix, local);
                lemma_put_tag_ok(ck, w, 'T', q);
                lemma_put_tag_extends(ck, 'T', q);
                let c1 = put_tag_spec(ck, 'T', q)->0;
                lemma_put_attributes_extends(c1, w, attributes@, attributes@.len() as int);
                assert(attributes@.take(attributes@.len() as int) == attributes@);
                lemma_extends_trans(c1, ck1, full);
                lemma_put_tag_reads(ck, 'T', q, full.syms, w, full.tags);
                lemma_attributes_read(c1, w, attributes@, full);
            },
            XmlItem::End => {
                lemma_push_token_reads(ck.tokens, seq!['0'], full.syms, w, full.tags);
            },
            XmlItem::Text(t) => {
                lemma_put_text_reads(ck, w, t@, full.syms, full.tags);
            },
            _ => {},
        }
    }
}

proof fn lemma_text_of_width(t: Seq<char>, syms: Seq<char>, w: nat)
    requires
        text_of(t, syms, w) is Some,
    ensures
        w > 0,
        t.len() % w == 0,
    decreases t.len(),
{
    if t.len() > 0 {
        lemma_text_of_width(t.skip(w as int), syms, w);
        assert(t.len() == t.skip(w as int).len() + w);
        assert(t.len() % w == 0) by (nonlinear_arith)
            requires
                t.len() == t.skip(w as int).len() + w,
                t.skip(w as int).len() % w == 0,
                w > 0,
        ;
    } else {
        assert(t.len() % w == 0) by (nonlinear_arith)
            requires
                t.len() == 0,
                w > 0,
        ;
    }
}

/// Every text token that the encoder writes is a run of `w`-digit codes, each the
/// code of a character of the final symbol table and so never all zeros; its
/// length is a positive multiple of `w`, and none is the closing `0`. Every `T`
/// and `A` token carries the code of a name of the final tag table.
pub proof fn lemma_text_tokens(syms: Seq<char>, tags: Seq<Seq<char>>, w: nat, items: Seq<XmlItem>)
    requires
        distinct_chars(syms),
        fits_width(syms.len(), w),
        encode_items_spec(start(syms, tags), w, items) is Some,
    ensures
        ({
            let c = encode_items_spec(start(syms, tags), w, items)->0;
            &&& text_tokens_decode(c.tokens, c.syms, w)
            &&& name_tokens_decode(c.tokens, c.tags)
            &&& forall|k: int|
                0 <= k < c.tokens.len() && is_text_token(#[trigger] c.tokens[k]) ==> w > 0
                    && c.tokens[k].len() % w == 0
        }),
{
    let c0 = start(syms, tags);
    let c = encode_items_spec(c0, w, items)->0;
    lemma_items_read(c0, w, items, items.len() as int);
    assert(items.take(items.len() as int) == items);
    assert forall|k: int| 0 <= k < c.tokens.len() && is_text_token(#[trigger] c.tokens[k]) implies w
        > 0 && c.tokens[k].len() % w == 0 by {
        lemma_text_of_width(c.tokens[k], c.syms, w);
    }
}

} // verus!
