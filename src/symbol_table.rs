//! The symbol table: content characters and their fixed-width decimal codes.

use vstd::prelude::*;

use crate::digits::{
    all_digits, below_pow10, count_digits, digit_count, digits_value, fixed_digits,
    lemma_fixed_digits, parse_number, pow10, push_fixed_digits,
};
use crate::text::{chars_of, string_of};

verus! {

/// Whether no character occurs twice in `s`.
pub open spec fn distinct_chars(s: Seq<char>) -> bool {
    forall|i: int, j: int| 0 <= i < j < s.len() ==> s[i] != s[j]
}

/// The symbols after `c` has been added, if it was not there yet.
pub open spec fn with_symbol(syms: Seq<char>, c: char) -> Seq<char> {
    if syms.contains(c) {
        syms
    } else {
        syms.push(c)
    }
}

/// The symbols of `s` in order of first occurrence.
pub open spec fn unique_symbols(s: Seq<char>) -> Seq<char>
    decreases s.len(),
{
    if s.len() == 0 {
        Seq::empty()
    } else {
        with_symbol(unique_symbols(s.drop_last()), s.last())
    }
}

/// Where `c` stands among the symbols.
pub open spec fn symbol_index(syms: Seq<char>, c: char) -> int {
    choose|i: int| 0 <= i < syms.len() && syms[i] == c
}

/// The code of a symbol: its place counted from one, in `w` digits.
pub open spec fn symbol_code(syms: Seq<char>, w: nat, c: char) -> Seq<char> {
    fixed_digits((symbol_index(syms, c) + 1) as nat, w)
}

/// The symbol that a code names, if any.
pub open spec fn symbol_for(syms: Seq<char>, code: Seq<char>) -> Option<char> {
    if all_digits(code) && 1 <= digits_value(code) <= syms.len() {
        Some(syms[digits_value(code) - 1])
    } else {
        None
    }
}

/// Whether `n` symbols get codes of `w` digits (the all-zero code is never issued),
/// and their count stays below the machine's largest size.
pub open spec fn fits_width(n: nat, w: nat) -> bool {
    n < pow10(w) && n < usize::MAX
}

/// A table of symbols and their fixed-width decimal codes.
pub trait XmlNSymbolTable: Sized {
    /// The number of digits of each code.
    spec fn width(&self) -> nat;

    /// The symbols in the order they were added; the `k`-th has code `k`, from one.
    spec fn symbols(&self) -> Seq<char>;

    spec fn wf(&self) -> bool;

    /// A well-formed table holds each symbol once and has a code for each.
    proof fn lemma_wf(&self)
        requires
            self.wf(),
        ensures
            distinct_chars(self.symbols()),
            fits_width(self.symbols().len(), self.width()),
    ;

    /// An empty table whose codes have `code_size` digits.
    fn new(code_size: u8) -> (r: Self)
        ensures
            r.wf(),
            r.width() == code_size,
            r.symbols() == Seq::<char>::empty(),
    ;

    /// The code of `symbol`, which is added first if new; `None` when the table is full.
    fn encode(&mut self, symbol: char) -> (r: Option<String>)
        requires
            old(self).wf(),
        ensures
            final(self).wf(),
            final(self).width() == old(self).width(),
            fits_width(with_symbol(old(self).symbols(), symbol).len(), old(self).width()) ==> {
                &&& final(self).symbols() == with_symbol(old(self).symbols(), symbol)
                &&& r matches Some(code) && code@ == symbol_code(
                    final(self).symbols(),
                    final(self).width(),
                    symbol,
                )
            },
            !fits_width(with_symbol(old(self).symbols(), symbol).len(), old(self).width()) ==> {
                &&& final(self).symbols() == old(self).symbols()
                &&& r is None
            },
    ;

    /// The symbol whose code is `code`.
    fn decode(&self, code: &str) -> (r: Option<char>)
        requires
            self.wf(),
            code@.len() == self.width(),
        ensures
            r == symbol_for(self.symbols(), code@),
    ;

    /// The number of digits of each code.
    fn code_size(&self) -> (r: u8)
        requires
            self.wf(),
        ensures
            r as nat == self.width(),
    ;

    /// How many symbols the table holds.
    fn symbol_count(&self) -> (r: usize)
        requires
            self.wf(),
        ensures
            r as nat == self.symbols().len(),
    ;

    /// The symbols in the order they were added.
    fn iter_symbols(&self) -> (r: Vec<char>)
        requires
            self.wf(),
        ensures
            r@ == self.symbols(),
    ;
}

/// A symbol table that grows as symbols are encoded.
pub struct XmlNDynamicSymbolTable {
    code_size: u8,
    symbols: Vec<char>,
}

impl XmlNDynamicSymbolTable {
    /// A table over `symbols`, duplicates dropped, with the fewest digits that give
    /// each of them a code.
    pub fn from_symbols(symbols: &[char]) -> (r: Self)
        requires
            symbols@.len() < usize::MAX,
        ensures
            r.wf(),
            r.symbols() == unique_symbols(symbols@),
            r.width() == digit_count(unique_symbols(symbols@).len()),
    {
        let mut unique: Vec<char> = Vec::new();
        let mut i: usize = 0;
        while i < symbols.len()
            invariant
                i <= symbols@.len(),
                unique@ == unique_symbols(symbols@.take(i as int)),
                distinct_chars(unique@),
                unique@.len() <= i,
            decreases symbols@.len() - i,
        {
            proof {
                assert(symbols@.take(i as int + 1).drop_last() == symbols@.take(i as int));
            }
            let found = position_of(&unique, symbols[i]);
            if found.is_none() {
                unique.push(symbols[i]);
            }
            i = i + 1;
        }
        proof {
            assert(symbols@.take(i as int) == symbols@);
        }
        proof {
            crate::digits::lemma_usize_digit_count(unique@.len());
            crate::digits::lemma_digit_count(unique@.len());
        }
        let code_size = count_digits(unique.len()) as u8;
        XmlNDynamicSymbolTable { code_size, symbols: unique }
    }

    /// The code that the next new symbol gets.
    fn get_next_code(&self) -> (r: usize)
        requires
            self.wf(),
        ensures
            r == self.symbols@.len() + 1,
    {
        self.symbols.len() + 1
    }
}

/// Where `c` stands in `v`, if it is there.
pub(crate) fn position_of(v: &Vec<char>, c: char) -> (r: Option<usize>)
    ensures
        r matches Some(i) ==> i < v@.len() && v@[i as int] == c,
        r is None ==> !v@.contains(c),
{
    let mut i: usize = 0;
    while i < v.len()
        invariant
            i <= v@.len(),
            forall|j: int| 0 <= j < i ==> v@[j] != c,
        decreases v@.len() - i,
    {
        if v[i] == c {
            return Some(i);
        }
        i = i + 1;
    }
    None
}

impl XmlNSymbolTable for XmlNDynamicSymbolTable {
    closed spec fn width(&self) -> nat {
        self.code_size as nat
    }

    closed spec fn symbols(&self) -> Seq<char> {
        self.symbols@
    }

    closed spec fn wf(&self) -> bool {
        &&& distinct_chars(self.symbols@)
        &&& fits_width(self.symbols@.len(), self.code_size as nat)
    }

    proof fn lemma_wf(&self) {
    }

    fn new(code_size: u8) -> (r: Self) {
        proof {
            crate::digits::lemma_pow10_positive(code_size as nat);
        }
        XmlNDynamicSymbolTable { code_size, symbols: Vec::new() }
    }

    fn encode(&mut self, symbol: char) -> (r: Option<String>) {
        let index = match position_of(&self.symbols, symbol) {
            Some(i) => i,
            None => {
                let code = self.get_next_code();
                if !below_pow10(code, self.code_size) || code == usize::MAX {
                    return None;
                }
                self.symbols.push(symbol);
                proof {
                    assert(self.symbols@ == with_symbol(old(self).symbols@, symbol));
                }
                code - 1
            },
        };
        proof {
            assert(with_symbol(old(self).symbols@, symbol) == self.symbols@);
            let i = symbol_index(self.symbols@, symbol);
            assert(self.symbols@[index as int] == symbol);
            assert(i == index);
        }
        let mut code: Vec<char> = Vec::new();
        push_fixed_digits(index + 1, self.code_size, &mut code);
        proof {
            assert(code@ =~= symbol_code(self.symbols@, self.code_size as nat, symbol));
        }
        Some(string_of(code.as_slice()))
    }

    fn decode(&self, code: &str) -> (r: Option<char>) {
        let digits = chars_of(code);
        proof {
            assert(digits@.skip(0) == digits@);
        }
        match parse_number(digits.as_slice(), 0, self.symbols.len()) {
            Some(k) => {
                if k == 0 {
                    None
                } else {
                    Some(self.symbols[k - 1])
                }
            },
            None => None,
        }
    }

    fn code_size(&self) -> (r: u8) {
        self.code_size
    }

    fn symbol_count(&self) -> (r: usize) {
        self.symbols.len()
    }

    fn iter_symbols(&self) -> (r: Vec<char>) {
        self.symbols.clone()
    }
}

/// How a character is written in a listing, escaped as in Rust's debug output.
pub uninterp spec fn escaped_char(c: char) -> Seq<char>;

/// Relies on `char::escape_debug`: the character as Rust's debug output writes
/// it; the result depends on the character alone.
#[verifier::external_body]
fn escape_char(c: char) -> (r: String)
    ensures
        r@ == escaped_char(c),
{
    c.escape_debug().to_string()
}

/// One line per symbol, in code order: the escaped symbol, an arrow, its code.
pub open spec fn symbol_listing(syms: Seq<char>, w: nat) -> Seq<char>
    decreases syms.len(),
{
    if syms.len() == 0 {
        Seq::empty()
    } else {
        symbol_listing(syms.drop_last(), w) + "\n    "@ + escaped_char(syms.last()) + " -> "@
            + fixed_digits(syms.len(), w)
    }
}

impl XmlNDynamicSymbolTable {
    /// A listing of the table: its width, then each symbol with its code.
    pub fn to_string(&self) -> (r: String)
        requires
            self.wf(),
        ensures
            r@ == "XmlNDynamicSymbolTable\n  Symbol size: "@ + crate::digits::decimal(
                self.width(),
            ) + "\n  Symbols mappings: "@ + symbol_listing(self.symbols(), self.width()),
    {
        let mut out = chars_of("XmlNDynamicSymbolTable\n  Symbol size: ");
        crate::digits::push_decimal(self.code_size as usize, &mut out);
        let mut heading = chars_of("\n  Symbols mappings: ");
        out.append(&mut heading);
        let ghost front = out@;
        let mut i: usize = 0;
        proof {
            assert(self.symbols@.take(0) =~= Seq::<char>::empty());
            assert(front + symbol_listing(Seq::<char>::empty(), self.code_size as nat) =~= front);
        }
        while i < self.symbols.len()
            invariant
                self.wf(),
                i <= self.symbols@.len(),
                out@ == front + symbol_listing(self.symbols@.take(i as int), self.code_size as nat),
            decreases self.symbols@.len() - i,
        {
            let mut line = chars_of("\n    ");
            let mut symbol = chars_of(escape_char(self.symbols[i]).as_str());
            let mut arrow = chars_of(" -> ");
            out.append(&mut line);
            out.append(&mut symbol);
            out.append(&mut arrow);
            push_fixed_digits(i + 1, self.code_size, &mut out);
            proof {
                let t = self.symbols@.take(i as int + 1);
                assert(t.drop_last() == self.symbols@.take(i as int));
                assert(t.last() == self.symbols@[i as int]);
                assert(out@ =~= front + symbol_listing(t, self.code_size as nat));
            }
            i = i + 1;
        }
        proof {
            assert(self.symbols@.take(i as int) == self.symbols@);
        }
        string_of(out.as_slice())
    }
}

/// Each symbol's code has the table's width, is not all zeros, and decodes to the symbol.
pub proof fn lemma_symbol_code(syms: Seq<char>, w: nat, c: char)
    requires
        distinct_chars(syms),
        fits_width(syms.len(), w),
        syms.contains(c),
    ensures
        symbol_code(syms, w, c).len() == w,
        all_digits(symbol_code(syms, w, c)),
        digits_value(symbol_code(syms, w, c)) >= 1,
        symbol_for(syms, symbol_code(syms, w, c)) == Some(c),
{
    let i = symbol_index(syms, c);
    assert(0 <= i < syms.len() && syms[i] == c);
    lemma_fixed_digits((i + 1) as nat, w);
    vstd::arithmetic::div_mod::lemma_small_mod((i + 1) as nat, pow10(w));
}

} // verus!
