//! Unpacking the bytes that compression hands to DEFLATE restores the canonical document.

use vstd::prelude::*;

use vstd::utf8::{
    decode_utf8, decode_utf8_encode_utf8, encode_utf8, encode_utf8_decode_utf8,
    encode_utf8_valid_utf8, length_of_first_scalar, pop_first_scalar, valid_utf8,
};

use crate::cursor::until_space;
use crate::digits::{decimal, is_digit, lemma_decimal, parsed_number};
use crate::header::{
    names_field, names_text, number_field, parsed_symbol_header, parsed_tag_header,
    symbol_header_text, symbols_field, tag_header_text,
};
use crate::round_trip::{attribute_values_separable, canonical, lemma_xmln_round_trip};
use crate::symbol_table::{distinct_chars, fits_width};
use crate::tag_table::{distinct_names, max_tags, with_tag};
use crate::xflate::{XFlateConfig, body_after_headers, framed, unpacked_stream, utf8_lead};
use crate::xml_source::{XmlAttribute, XmlItem};
use crate::xmln::{
    Coded, coded_ok, encode_items_spec, joined, lemma_encode_items_ok, lemma_xmln_alphabet,
    put_attributes_spec, put_tag_spec, put_text_spec, qualified, start,
};
use crate::xmls::{lemma_xmls_round_trip, packed, unpacked};

verus! {

/// The encoding of joined characters is the joined encodings.
proof fn lemma_encode_utf8_concat(a: Seq<char>, b: Seq<char>)
    ensures
        encode_utf8(a + b) == encode_utf8(a) + encode_utf8(b),
    decreases a.len(),
{
    if a.len() == 0 {
        assert(a + b == b);
        assert(encode_utf8(a) =~= Seq::<u8>::empty());
        assert(Seq::<u8>::empty() + encode_utf8(b) =~= encode_utf8(b));
    } else {
        assert((a + b).drop_first() == a.drop_first() + b);
        assert((a + b)[0] == a[0]);
        lemma_encode_utf8_concat(a.drop_first(), b);
        assert(encode_utf8(a + b) =~= encode_utf8(a) + encode_utf8(b));
    }
}

/// Valid UTF-8 followed by bytes that keep the whole valid: those bytes are valid
/// too, and the text splits where the bytes do.
proof fn lemma_utf8_split(b1: Seq<u8>, b2: Seq<u8>)
    requires
        valid_utf8(b1),
        valid_utf8(b1 + b2),
    ensures
        valid_utf8(b2),
        decode_utf8(b1 + b2) == decode_utf8(b1) + decode_utf8(b2),
    decreases b1.len(),
{
    if b1.len() == 0 {
        assert(b1 + b2 == b2);
        assert(decode_utf8(b1) =~= Seq::<char>::empty());
        assert(Seq::<char>::empty() + decode_utf8(b2) =~= decode_utf8(b2));
    } else {
        let rest = pop_first_scalar(b1);
        assert(length_of_first_scalar(b1) >= 1);
        assert(rest.len() < b1.len());
        assert(pop_first_scalar(b1 + b2) =~= rest + b2);
        lemma_utf8_split(rest, b2);
        assert(decode_utf8(b1 + b2) =~= decode_utf8(b1) + decode_utf8(b2));
    }
}

/// Whether no character of `s` is a space.
pub open spec fn spaceless(s: Seq<char>) -> bool {
    forall|i: int| 0 <= i < s.len() ==> #[trigger] s[i] != ' '
}

proof fn lemma_until_space_spaceless(t: Seq<char>, r: Seq<char>)
    requires
        spaceless(t),
    ensures
        until_space(t + (seq![' '] + r)) == t,
    decreases t.len(),
{
    let z = seq![' '] + r;
    if t.len() == 0 {
        assert(t + z == z);
        assert(until_space(z) =~= Seq::<char>::empty());
        assert(t =~= Seq::<char>::empty());
    } else {
        assert((t + z).drop_first() == t.drop_first() + z);
        let d = t.drop_first();
        assert forall|i: int| 0 <= i < d.len() implies #[trigger] d[i] != ' ' by {
            assert(d[i] == t[i + 1]);
        }
        lemma_until_space_spaceless(d, r);
        assert(seq![t[0]] + d =~= t);
    }
}

proof fn lemma_number_field(n: nat, limit: nat, r: Seq<char>)
    requires
        n <= limit,
    ensures
        number_field(decimal(n) + (seq![' '] + r), limit) == Some((n, r)),
{
    lemma_decimal(n);
    let d = decimal(n);
    assert(spaceless(d)) by {
        assert forall|i: int| 0 <= i < d.len() implies #[trigger] d[i] != ' ' by {
            assert(is_digit(d[i]));
        }
    }
    lemma_until_space_spaceless(d, r);
    assert(parsed_number(d, limit) == Some(n));
    assert((d + (seq![' '] + r)).skip(d.len() as int + 1) =~= r);
}

proof fn lemma_names_text_front(ns: Seq<Seq<char>>)
    requires
        ns.len() > 0,
    ensures
        names_text(ns) == ns[0] + (seq![' '] + names_text(ns.drop_first())),
    decreases ns.len(),
{
    if ns.len() == 1 {
        assert(ns.drop_last() =~= Seq::<Seq<char>>::empty());
        assert(ns.drop_first() =~= Seq::<Seq<char>>::empty());
        assert(names_text(ns.drop_last()) =~= Seq::<char>::empty());
        assert(names_text(ns.drop_first()) =~= Seq::<char>::empty());
        assert(names_text(ns) =~= ns[0] + (seq![' '] + names_text(ns.drop_first())));
    } else {
        let d = ns.drop_last();
        lemma_names_text_front(d);
        assert(d.drop_first() == ns.drop_first().drop_last());
        assert(ns.drop_first().last() == ns.last());
        assert(d[0] == ns[0]);
        assert(names_text(ns) =~= ns[0] + (seq![' '] + names_text(ns.drop_first())));
    }
}

/// Whether every name holds no space.
pub open spec fn names_spaceless(ns: Seq<Seq<char>>) -> bool {
    forall|k: int| 0 <= k < ns.len() ==> spaceless(#[trigger] ns[k])
}

proof fn lemma_names_field(ns: Seq<Seq<char>>, acc: Seq<Seq<char>>, r: Seq<char>)
    requires
        names_spaceless(ns),
        distinct_names(acc + ns),
        (acc + ns).len() <= max_tags(),
    ensures
        names_field(names_text(ns) + r, ns.len(), acc) == Some((acc + ns, r)),
    decreases ns.len(),
{
    if ns.len() == 0 {
        assert(names_text(ns) =~= Seq::<char>::empty());
        assert(names_text(ns) + r =~= r);
        assert(acc + ns =~= acc);
    } else {
        let t = ns[0];
        let d = ns.drop_first();
        lemma_names_text_front(ns);
        let s = names_text(ns) + r;
        assert(s =~= t + (seq![' '] + (names_text(d) + r)));
        assert(spaceless(ns[0]));
        lemma_until_space_spaceless(t, names_text(d) + r);
        assert(s.skip(t.len() as int + 1) =~= names_text(d) + r);
        assert(!acc.contains(t)) by {
            if acc.contains(t) {
                let i = choose|i: int| 0 <= i < acc.len() && acc[i] == t;
                assert((acc + ns)[i] == (acc + ns)[acc.len() as int]);
            }
        }
        assert(with_tag(acc, t) == acc.push(t));
        assert(acc.push(t) + d =~= acc + ns);
        assert forall|k: int| 0 <= k < d.len() implies spaceless(#[trigger] d[k]) by {
            assert(d[k] == ns[k + 1]);
        }
        lemma_names_field(d, acc.push(t), r);
    }
}

/// A tag header reads back as the names it was written from.
pub proof fn lemma_tag_header(tags: Seq<Seq<char>>, r: Seq<char>)
    requires
        names_spaceless(tags),
        distinct_names(tags),
        tags.len() <= max_tags(),
    ensures
        parsed_tag_header(tag_header_text(tags) + r) == Some((tags, r)),
{
    let s = tag_header_text(tags) + r;
    assert(s.skip(2) =~= decimal(tags.len()) + (seq![' '] + (names_text(tags) + r)));
    lemma_number_field(tags.len(), usize::MAX as nat, names_text(tags) + r);
    assert(Seq::<Seq<char>>::empty() + tags =~= tags);
    lemma_names_field(tags, Seq::empty(), r);
}

proof fn lemma_symbols_field(syms: Seq<char>, acc: Seq<char>, w: nat, r: Seq<char>)
    requires
        distinct_chars(acc + syms),
        fits_width((acc + syms).len(), w),
    ensures
        symbols_field(syms + r, syms.len(), acc, w) == Some((acc + syms, r)),
    decreases syms.len(),
{
    if syms.len() == 0 {
        assert(syms + r =~= r);
        assert(acc + syms =~= acc);
    } else {
        let c = syms[0];
        let d = syms.drop_first();
        assert((syms + r)[0] == c);
        assert((syms + r).drop_first() =~= d + r);
        assert(!acc.contains(c)) by {
            if acc.contains(c) {
                let i = choose|i: int| 0 <= i < acc.len() && acc[i] == c;
                assert((acc + syms)[i] == (acc + syms)[acc.len() as int]);
            }
        }
        assert(acc.push(c) + d =~= acc + syms);
        lemma_symbols_field(d, acc.push(c), w, r);
    }
}

/// A symbol header reads back as the width and symbols it was written from.
pub proof fn lemma_symbol_header(w: nat, syms: Seq<char>, r: Seq<char>)
    requires
        w <= 255,
        distinct_chars(syms),
        fits_width(syms.len(), w),
    ensures
        parsed_symbol_header(symbol_header_text(w, syms) + r) == Some((w, syms, r)),
{
    let s = symbol_header_text(w, syms) + r;
    let r3 = seq![' '] + r;
    let r2 = syms + r3;
    let r1 = decimal(syms.len()) + (seq![' '] + r2);
    assert(s.skip(2) =~= decimal(w) + (seq![' '] + r1));
    lemma_number_field(w, 255, r1);
    lemma_number_field(syms.len(), usize::MAX as nat, r2);
    assert(Seq::<char>::empty() + syms =~= syms);
    lemma_symbols_field(syms, Seq::empty(), w, r3);
    assert(r3.drop_first() =~= r);
}

/// Where valid UTF-8 text `h` begins some bytes, the longest valid start of
/// those bytes is `h` followed by more text, whose encoding follows `h`'s.
pub proof fn lemma_leading_text(h: Seq<char>, p: Seq<u8>, lead: Seq<char>)
    requires
        encode_utf8(lead).is_prefix_of(encode_utf8(h) + p),
        forall|k: int|
            0 <= k <= (encode_utf8(h) + p).len() && #[trigger] valid_utf8(
                (encode_utf8(h) + p).take(k),
            ) ==> k <= encode_utf8(lead).len(),
    ensures
        ({
            let x = encode_utf8(lead).skip(encode_utf8(h).len() as int);
            &&& encode_utf8(h).len() <= encode_utf8(lead).len()
            &&& lead == h + decode_utf8(x)
            &&& encode_utf8(decode_utf8(x)) == x
            &&& x == p.take(x.len() as int)
        }),
{
    let eh = encode_utf8(h);
    let el = encode_utf8(lead);
    let b = eh + p;
    encode_utf8_valid_utf8(h);
    assert(b.take(eh.len() as int) =~= eh);
    assert(eh.len() <= el.len());
    let x = el.skip(eh.len() as int);
    assert(el =~= eh + x) by {
        assert forall|i: int| 0 <= i < eh.len() implies el[i] == eh[i] by {
            assert(el[i] == b.subrange(0, el.len() as int)[i]);
        }
    }
    encode_utf8_valid_utf8(lead);
    lemma_utf8_split(eh, x);
    encode_utf8_decode_utf8(lead);
    encode_utf8_decode_utf8(h);
    decode_utf8_encode_utf8(x);
    assert(x =~= p.take(x.len() as int)) by {
        assert forall|i: int| 0 <= i < x.len() implies x[i] == p[i] by {
            assert(x[i] == el[eh.len() + i]);
            assert(el[eh.len() + i] == b.subrange(0, el.len() as int)[eh.len() + i]);
        }
    }
}

/// Whether the bytes begin with the encoding of `lead` and no longer start of
/// them is valid UTF-8: what `utf8_chunks` gives as the first valid text.
pub open spec fn leading_text_of(b: Seq<u8>, lead: Seq<char>) -> bool {
    &&& encode_utf8(lead).is_prefix_of(b)
    &&& forall|k: int|
        0 <= k <= b.len() && #[trigger] valid_utf8(b.take(k)) ==> k <= encode_utf8(lead).len()
}

/// Whether every element and attribute name of the events holds no space, as
/// XML names never do.
pub open spec fn item_names_spaceless(items: Seq<XmlItem>) -> bool {
    forall|k: int|
        0 <= k < items.len() ==> match #[trigger] items[k] {
            XmlItem::Start { prefix, local, attributes } => {
                &&& spaceless(qualified(prefix, local))
                &&& forall|m: int|
                    0 <= m < attributes@.len() ==> spaceless(
                        qualified(#[trigger] attributes@[m].prefix, attributes@[m].local),
                    )
            },
            _ => true,
        }
}

/// Whether a tag table's names are distinct, spaceless and few enough for codes.
pub open spec fn tags_ok(tags: Seq<Seq<char>>) -> bool {
    &&& distinct_names(tags)
    &&& tags.len() <= max_tags()
    &&& names_spaceless(tags)
}

proof fn lemma_put_tag_tags(c: Coded, letter: char, name: Seq<char>)
    requires
        tags_ok(c.tags),
        spaceless(name),
        put_tag_spec(c, letter, name) is Some,
    ensures
        tags_ok(put_tag_spec(c, letter, name)->0.tags),
{
    let t = with_tag(c.tags, name);
    if !c.tags.contains(name) {
        assert forall|i: int, j: int| 0 <= i < j < t.len() implies t[i] != t[j] by {
            if j == c.tags.len() {
                assert(t[i] == c.tags[i]);
            }
        }
        assert forall|k: int| 0 <= k < t.len() implies spaceless(#[trigger] t[k]) by {
            if k < c.tags.len() {
                assert(t[k] == c.tags[k]);
            }
        }
    }
}

proof fn lemma_attributes_tags(c: Coded, w: nat, attrs: Seq<XmlAttribute>)
    requires
        tags_ok(c.tags),
        forall|m: int|
            0 <= m < attrs.len() ==> spaceless(
                qualified(#[trigger] attrs[m].prefix, attrs[m].local),
            ),
        put_attributes_spec(c, w, attrs) is Some,
    ensures
        tags_ok(put_attributes_spec(c, w, attrs)->0.tags),
    decreases attrs.len(),
{
    if attrs.len() > 0 {
        let d = attrs.drop_last();
        assert forall|m: int| 0 <= m < d.len() implies spaceless(
            qualified(#[trigger] d[m].prefix, d[m].local),
        ) by {
            assert(d[m] == attrs[m]);
        }
        lemma_attributes_tags(c, w, d);
        let c1 = put_attributes_spec(c, w, d)->0;
        let last = attrs.last();
        assert(spaceless(qualified(attrs[attrs.len() - 1].prefix, attrs[attrs.len() - 1].local)));
        lemma_put_tag_tags(c1, 'A', qualified(last.prefix, last.local));
    }
}

proof fn lemma_items_tags(c: Coded, w: nat, items: Seq<XmlItem>)
    requires
        tags_ok(c.tags),
        item_names_spaceless(items),
        encode_items_spec(c, w, items) is Some,
    ensures
        tags_ok(encode_items_spec(c, w, items)->0.tags),
    decreases items.len(),
{
    if items.len() > 0 {
        let d = items.drop_last();
        assert(item_names_spaceless(d)) by {
            assert forall|k: int| 0 <= k < d.len() implies match #[trigger] d[k] {
                XmlItem::Start { prefix, local, attributes } => {
                    &&& spaceless(qualified(prefix, local))
                    &&& forall|m: int|
                        0 <= m < attributes@.len() ==> spaceless(
                            qualified(#[trigger] attributes@[m].prefix, attributes@[m].local),
                        )
                },
                _ => true,
            } by {
                assert(d[k] == items[k]);
            }
        }
        lemma_items_tags(c, w, d);
        let c1 = encode_items_spec(c, w, d)->0;
        let k = items.len() - 1;
        match items[k] {
            XmlItem::Start { prefix, local, attributes } => {
                lemma_put_tag_tags(c1, 'T', qualified(prefix, local));
                let c2 = put_tag_spec(c1, 'T', qualified(prefix, local))->0;
                lemma_attributes_tags(c2, w, attributes@);
            },
            _ => {},
        }
    }
}

/// Unpacking the bytes that compression hands to DEFLATE gives the events'
/// canonical XML text, for a compressor with fresh tables and both headers on;
/// the leading text is what `utf8_chunks` gives of those bytes. Together with
/// DEFLATE's own round trip this is `decompress(compress(x)) == canonical(x)`.
pub proof fn lemma_stream_round_trip(config: XFlateConfig, items: Seq<XmlItem>)
    requires
        config.add_tag_header,
        config.add_symbol_header,
        encode_items_spec(start(Seq::empty(), Seq::empty()), config.symbol_size as nat, items) is Some,
        attribute_values_separable(items),
        item_names_spaceless(items),
        ({
            let c = encode_items_spec(
                start(Seq::empty(), Seq::empty()),
                config.symbol_size as nat,
                items,
            )->0;
            let b = framed(config, config.symbol_size as nat, c.syms, c.tags, joined(c.tokens));
            leading_text_of(b, utf8_lead(b))
        }),
    ensures
        ({
            let c = encode_items_spec(
                start(Seq::empty(), Seq::empty()),
                config.symbol_size as nat,
                items,
            )->0;
            unpacked_stream(
                framed(config, config.symbol_size as nat, c.syms, c.tags, joined(c.tokens)),
            ) == canonical(items)
        }),
{
    let w = config.symbol_size as nat;
    let c0 = start(Seq::<char>::empty(), Seq::<Seq<char>>::empty());
    crate::digits::lemma_pow10_positive(w);
    assert(coded_ok(c0, w));
    let c = encode_items_spec(c0, w, items)->0;
    lemma_encode_items_ok(c0, w, items);
    assert(tags_ok(c0.tags));
    lemma_items_tags(c0, w, items);
    let xmln = joined(c.tokens);
    lemma_xmln_alphabet(Seq::empty(), Seq::empty(), w, items);
    lemma_xmls_round_trip(xmln);
    let p = packed(xmln);
    let b = framed(config, w, c.syms, c.tags, xmln);
    lemma_unpack_framed(c.tags, w, c.syms, p, b);
    lemma_xmln_round_trip(Seq::empty(), Seq::empty(), w, items);
}

/// Bytes that begin with both headers: the headers read back as the tables, and
/// what follows them is the rest of the bytes.
proof fn lemma_unpack_framed(tags: Seq<Seq<char>>, w: nat, syms: Seq<char>, p: Seq<u8>, b: Seq<u8>)
    requires
        tags_ok(tags),
        w <= 255,
        distinct_chars(syms),
        fits_width(syms.len(), w),
        b == encode_utf8(tag_header_text(tags)) + (encode_utf8(symbol_header_text(w, syms)) + p),
        leading_text_of(b, utf8_lead(b)),
    ensures
        unpacked_stream(b) == (if crate::xmls::valid_nibbles(p) {
            crate::xmln_decoder::decoded_xmln(unpacked(p), syms, w, tags)
        } else {
            None
        }),
{
    let ht = tag_header_text(tags);
    let hs = symbol_header_text(w, syms);
    let h = ht + hs;
    lemma_encode_utf8_concat(ht, hs);
    assert(b =~= encode_utf8(h) + p);
    let lead = utf8_lead(b);
    lemma_leading_text(h, p, lead);
    let x = encode_utf8(lead).skip(encode_utf8(h).len() as int);
    let rest = decode_utf8(x);
    assert(lead =~= ht + (hs + rest));
    lemma_tag_header(tags, hs + rest);
    lemma_symbol_header(w, syms, rest);
    assert(body_after_headers(b, rest) =~= p) by {
        assert(encode_utf8(lead).len() == encode_utf8(h).len() + x.len());
        assert(b.skip(encode_utf8(lead).len() as int) =~= p.skip(x.len() as int));
        assert(x + p.skip(x.len() as int) =~= p);
    }
}

} // verus!
