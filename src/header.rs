//! The tag and symbol headers that carry the two tables in front of the packed body.

use vstd::prelude::*;

use itertools::MultiPeek;
use std::vec::IntoIter;
use vstd::utf8::encode_utf8;

use crate::cursor::{
    consume_until_space, cursor_peeked, cursor_rest, lemma_until_space, next_char, until_space,
};
use crate::digits::{decimal, parse_number, parsed_number, push_decimal};
use crate::symbol_table::{XmlNDynamicSymbolTable, XmlNSymbolTable, fits_width};
use crate::tag_table::{XmlNDynamicTagTable, XmlNTagTable, max_tags, with_tag};
use crate::text::{chars_of, string_of};
use crate::xflate::XFlateError;

verus! {

/// Each name followed by a space.
pub open spec fn names_text(names: Seq<Seq<char>>) -> Seq<char>
    decreases names.len(),
{
    if names.len() == 0 {
        Seq::empty()
    } else {
        names_text(names.drop_last()) + names.last() + seq![' ']
    }
}

/// `E <count> <name> <name> ... `: the names of a tag table in code order.
pub open spec fn tag_header_text(names: Seq<Seq<char>>) -> Seq<char> {
    seq!['E', ' '] + decimal(names.len()) + seq![' '] + names_text(names)
}

/// `C <width> <count> <symbols> `: a symbol table's width and its symbols in code order.
pub open spec fn symbol_header_text(w: nat, syms: Seq<char>) -> Seq<char> {
    seq!['C', ' '] + decimal(w) + seq![' '] + decimal(syms.len()) + seq![' '] + syms + seq![' ']
}

/// A decimal field that a space ends: its value, and what follows the space.
pub open spec fn number_field(s: Seq<char>, limit: nat) -> Option<(nat, Seq<char>)> {
    let d = until_space(s);
    match parsed_number(d, limit) {
        Some(v) => if d.len() < s.len() {
            Some((v, s.skip(d.len() as int + 1)))
        } else {
            None
        },
        None => None,
    }
}

/// `n` more names, each ended by a space and none twice, added to `names`.
pub open spec fn names_field(s: Seq<char>, n: nat, names: Seq<Seq<char>>) -> Option<
    (Seq<Seq<char>>, Seq<char>),
>
    decreases n,
{
    if n == 0 {
        Some((names, s))
    } else {
        let t = until_space(s);
        if t.len() >= s.len() || with_tag(names, t).len() > max_tags() || names.contains(t) {
            None
        } else {
            names_field(s.skip(t.len() as int + 1), (n - 1) as nat, names.push(t))
        }
    }
}

/// The names of a tag header at the start of `s`, and what follows it.
pub open spec fn parsed_tag_header(s: Seq<char>) -> Option<(Seq<Seq<char>>, Seq<char>)> {
    if s.len() >= 2 && s[0] == 'E' && s[1] == ' ' {
        match number_field(s.skip(2), usize::MAX as nat) {
            Some((n, r)) => names_field(r, n, Seq::empty()),
            None => None,
        }
    } else {
        None
    }
}

/// `n` more symbols, none twice and each with a `w`-digit code, added to `syms`.
pub open spec fn symbols_field(s: Seq<char>, n: nat, syms: Seq<char>, w: nat) -> Option<
    (Seq<char>, Seq<char>),
>
    decreases n,
{
    if n == 0 {
        Some((syms, s))
    } else if s.len() == 0 || syms.contains(s[0]) || !fits_width(syms.len() + 1, w) {
        None
    } else {
        symbols_field(s.drop_first(), (n - 1) as nat, syms.push(s[0]), w)
    }
}

/// The width and symbols of a symbol header at the start of `s`, and what follows it.
pub open spec fn parsed_symbol_header(s: Seq<char>) -> Option<(nat, Seq<char>, Seq<char>)> {
    if s.len() >= 2 && s[0] == 'C' && s[1] == ' ' {
        match number_field(s.skip(2), 255) {
            None => None,
            Some((w, r1)) => match number_field(r1, usize::MAX as nat) {
                None => None,
                Some((n, r2)) => match symbols_field(r2, n, Seq::empty(), w) {
                    None => None,
                    Some((syms, r3)) => if r3.len() > 0 && r3[0] == ' ' {
                        Some((w, syms, r3.drop_first()))
                    } else {
                        None
                    },
                },
            },
        }
    } else {
        None
    }
}

/// The UTF-8 bytes of a tag header.
pub fn tag_header<T: XmlNTagTable>(table: &T) -> (r: Vec<u8>)
    requires
        table.wf(),
    ensures
        r@ == encode_utf8(tag_header_text(table.tags())),
{
    let tags = table.iter_tags();
    let mut header: Vec<char> = Vec::new();
    header.push('E');
    header.push(' ');
    push_decimal(tags.len(), &mut header);
    header.push(' ');
    let ghost names = table.tags();
    let ghost front = header@;
    let mut i: usize = 0;
    proof {
        assert(names.take(0) =~= Seq::<Seq<char>>::empty());
        assert(front + Seq::<char>::empty() == front);
    }
    while i < tags.len()
        invariant
            i <= tags@.len(),
            crate::tag_table::names_of(tags@) == names,
            header@ == front + names_text(names.take(i as int)),
            front == seq!['E', ' '] + decimal(names.len()) + seq![' '],
        decreases tags@.len() - i,
    {
        let mut name = chars_of(tags[i].as_str());
        header.append(&mut name);
        header.push(' ');
        proof {
            assert(names.take(i as int + 1).drop_last() == names.take(i as int));
            assert(names.take(i as int + 1).last() == tags@[i as int]@);
            assert(header@ =~= front + names_text(names.take(i as int + 1)));
        }
        i = i + 1;
    }
    proof {
        assert(names.take(i as int) == names);
        assert(header@ =~= tag_header_text(names));
    }
    let text = string_of(header.as_slice());
    vstd::slice::slice_to_vec(text.as_str().as_bytes())
}

/// The UTF-8 bytes of a symbol header.
pub fn symbol_header<S: XmlNSymbolTable>(table: &S) -> (r: Vec<u8>)
    requires
        table.wf(),
    ensures
        r@ == encode_utf8(symbol_header_text(table.width(), table.symbols())),
{
    let mut symbols = table.iter_symbols();
    let mut header: Vec<char> = Vec::new();
    header.push('C');
    header.push(' ');
    push_decimal(table.code_size() as usize, &mut header);
    header.push(' ');
    push_decimal(table.symbol_count(), &mut header);
    header.push(' ');
    header.append(&mut symbols);
    header.push(' ');
    proof {
        assert(header@ =~= symbol_header_text(table.width(), table.symbols()));
    }
    let text = string_of(header.as_slice());
    vstd::slice::slice_to_vec(text.as_str().as_bytes())
}

/// Reads a decimal field that a space ends.
fn parse_number_field(chars: &mut MultiPeek<IntoIter<char>>, limit: usize) -> (r: Option<usize>)
    requires
        cursor_peeked(*old(chars)) == 0,
    ensures
        cursor_peeked(*final(chars)) == 0,
        match number_field(cursor_rest(*old(chars)), limit as nat) {
            Some((v, rest)) => r == Some(v as usize) && cursor_rest(*final(chars)) == rest,
            None => r is None,
        },
{
    let ghost s = cursor_rest(*chars);
    proof {
        lemma_until_space(s);
    }
    let field = consume_until_space(chars);
    let digits = chars_of(field.as_str());
    proof {
        assert(digits@.skip(0) == digits@);
    }
    let v = match parse_number(digits.as_slice(), 0, limit) {
        Some(v) => v,
        None => {
            return None;
        },
    };
    match next_char(chars) {
        Some(_) => {
            proof {
                assert(s.skip(field@.len() as int).drop_first() =~= s.skip(field@.len() as int + 1));
            }
            Some(v)
        },
        None => None,
    }
}

/// Reads a tag header into a new tag table.
pub fn parse_tag_header(chars: &mut MultiPeek<IntoIter<char>>) -> (r: Result<
    XmlNDynamicTagTable,
    XFlateError,
>)
    requires
        cursor_peeked(*old(chars)) == 0,
    ensures
        cursor_peeked(*final(chars)) == 0,
        match parsed_tag_header(cursor_rest(*old(chars))) {
            Some((names, rest)) => r matches Ok(t) && t.wf() && t.tags() == names && cursor_rest(
                *final(chars),
            ) == rest,
            None => r matches Err(XFlateError::XmlSError(_)),
        },
{
    let ghost s = cursor_rest(*chars);
    let e = next_char(chars);
    let sp = next_char(chars);
    if e != Some('E') || sp != Some(' ') {
        return Err(XFlateError::XmlSError("missing tag header".to_string()));
    }
    proof {
        assert(cursor_rest(*chars) =~= s.skip(2));
    }
    let count = match parse_number_field(chars, usize::MAX) {
        Some(n) => n,
        None => {
            return Err(XFlateError::XmlSError("unable to parse the tag count".to_string()));
        },
    };
    let mut table = XmlNDynamicTagTable::new();
    let mut k: usize = 0;
    while k < count
        invariant
            k <= count,
            cursor_peeked(*chars) == 0,
            table.wf(),
            s == cursor_rest(*old(chars)),
            s.len() >= 2 && s[0] == 'E' && s[1] == ' ',
            number_field(s.skip(2), usize::MAX as nat) matches Some((n, r)) && n == count
                && names_field(r, n, Seq::empty()) == names_field(
                cursor_rest(*chars),
                (count - k) as nat,
                table.tags(),
            ),
        decreases count - k,
    {
        let ghost rest = cursor_rest(*chars);
        proof {
            table.lemma_wf();
            lemma_until_space(rest);
        }
        let name = consume_until_space(chars);
        let ghost names = table.tags();
        let ghost n = (count - k) as nat;
        proof {
            assert(names_field(rest, n, names) == if name@.len() >= rest.len() || with_tag(
                names,
                name@,
            ).len() > max_tags() || names.contains(name@) {
                None
            } else {
                names_field(rest.skip(name@.len() as int + 1), (n - 1) as nat, names.push(name@))
            });
        }
        if next_char(chars).is_none() {
            return Err(XFlateError::XmlSError("tag header ends early".to_string()));
        }
        proof {
            assert(rest.skip(name@.len() as int).drop_first() =~= rest.skip(name@.len() as int + 1));
        }
        let before = table.tag_count();
        match table.encode(name.as_str()) {
            Some(_) => {},
            None => {
                return Err(XFlateError::XmlSError("tag header holds too many names".to_string()));
            },
        }
        if table.tag_count() == before {
            proof {
                if !names.contains(name@) {
                    assert(with_tag(names, name@).len() == names.len() + 1);
                }
            }
            return Err(XFlateError::XmlSError("tag header repeats a name".to_string()));
        }
        proof {
            if names.contains(name@) {
                assert(with_tag(names, name@) == names);
            }
        }
        k = k + 1;
    }
    Ok(table)
}

/// Reads a symbol header into a new symbol table.
pub fn parse_symbol_header(chars: &mut MultiPeek<IntoIter<char>>) -> (r: Result<
    XmlNDynamicSymbolTable,
    XFlateError,
>)
    requires
        cursor_peeked(*old(chars)) == 0,
    ensures
        cursor_peeked(*final(chars)) == 0,
        match parsed_symbol_header(cursor_rest(*old(chars))) {
            Some((w, syms, rest)) => r matches Ok(t) && t.wf() && t.width() == w && t.symbols()
                == syms && cursor_rest(*final(chars)) == rest,
            None => r matches Err(XFlateError::XmlSError(_)),
        },
{
    let ghost s = cursor_rest(*chars);
    let c = next_char(chars);
    let sp = next_char(chars);
    if c != Some('C') || sp != Some(' ') {
        return Err(XFlateError::XmlSError("missing symbol header".to_string()));
    }
    proof {
        assert(cursor_rest(*chars) =~= s.skip(2));
    }
    let ghost r0 = cursor_rest(*chars);
    let code_size = match parse_number_field(chars, 255) {
        Some(w) => w as u8,
        None => {
            return Err(XFlateError::XmlSError("unable to parse the code size".to_string()));
        },
    };
    let ghost r1 = cursor_rest(*chars);
    let count = match parse_number_field(chars, usize::MAX) {
        Some(n) => n,
        None => {
            return Err(XFlateError::XmlSError("unable to parse the symbol count".to_string()));
        },
    };
    let ghost r2 = cursor_rest(*chars);
    let mut table = XmlNDynamicSymbolTable::new(code_size);
    let mut k: usize = 0;
    proof {
        assert(table.symbols() == Seq::<char>::empty());
    }
    while k < count
        invariant
            k <= count,
            table.wf(),
            table.width() == code_size,
            s == cursor_rest(*old(chars)),
            s.len() >= 2 && s[0] == 'C' && s[1] == ' ',
            r0 == s.skip(2),
            number_field(r0, 255) == Some((code_size as nat, r1)),
            number_field(r1, usize::MAX as nat) == Some((count as nat, r2)),
            symbols_field(r2, count as nat, Seq::empty(), code_size as nat) == symbols_field(
                cursor_rest(*chars),
                (count - k) as nat,
                table.symbols(),
                code_size as nat,
            ),
        decreases count - k,
    {
        proof {
            table.lemma_wf();
        }
        let ghost rest = cursor_rest(*chars);
        let ghost syms = table.symbols();
        let ghost n = (count - k) as nat;
        proof {
            assert(symbols_field(rest, n, syms, code_size as nat) == if rest.len() == 0
                || syms.contains(rest[0]) || !fits_width(syms.len() + 1, code_size as nat) {
                None
            } else {
                symbols_field(rest.drop_first(), (n - 1) as nat, syms.push(rest[0]), code_size as nat)
            });
        }
        let symbol = match next_char(chars) {
            Some(c) => c,
            None => {
                return Err(XFlateError::XmlSError("symbol header is missing symbols".to_string()));
            },
        };
        let before = table.symbol_count();
        match table.encode(symbol) {
            Some(_) => {},
            None => {
                proof {
                    if !syms.contains(symbol) {
                        assert(crate::symbol_table::with_symbol(syms, symbol) == syms.push(symbol));
                    }
                }
                return Err(XFlateError::XmlSError("symbol header overflows its width".to_string()));
            },
        }
        if table.symbol_count() == before {
            proof {
                if !syms.contains(symbol) {
                    assert(crate::symbol_table::with_symbol(syms, symbol).len() == syms.len() + 1);
                }
            }
            return Err(XFlateError::XmlSError("symbol header repeats a symbol".to_string()));
        }
        k = k + 1;
    }
    match next_char(chars) {
        Some(' ') => Ok(table),
        _ => Err(XFlateError::XmlSError("symbol header is not ended".to_string())),
    }
}

} // verus!
