//! Simple tables that give characters and names sixteen-bit codes counted from zero.

use vstd::prelude::*;

use crate::symbol_table::{distinct_chars, with_symbol};
use crate::tag_table::{distinct_names, max_tags, names_of, tag_for, tag_index, with_tag};

verus! {

/// Where `c` stands among the symbols, counted from zero.
pub open spec fn char_index(syms: Seq<char>, c: char) -> int {
    choose|i: int| 0 <= i < syms.len() && syms[i] == c
}

/// A table of characters and sixteen-bit codes counted from zero.
pub trait SymbolTable: Sized {
    /// The characters in the order they were added; the `k`-th has code `k`.
    spec fn symbols(&self) -> Seq<char>;

    spec fn wf(&self) -> bool;

    /// The code of `symbol`, which is added first if new; `None` when all codes are taken.
    fn encode(&mut self, symbol: char) -> (r: Option<u16>)
        requires
            old(self).wf(),
        ensures
            final(self).wf(),
            with_symbol(old(self).symbols(), symbol).len() <= max_tags() ==> {
                &&& final(self).symbols() == with_symbol(old(self).symbols(), symbol)
                &&& r == Some(char_index(final(self).symbols(), symbol) as u16)
            },
            with_symbol(old(self).symbols(), symbol).len() > max_tags() ==> {
                &&& final(self).symbols() == old(self).symbols()
                &&& r is None
            },
    ;

    /// The character whose code is `code`.
    fn decode(&self, code: u16) -> (r: Option<char>)
        requires
            self.wf(),
        ensures
            r == (if (code as nat) < self.symbols().len() {
                Some(self.symbols()[code as int])
            } else {
                None
            }),
    ;
}

/// A table of names and sixteen-bit codes counted from zero.
pub trait TagTable: Sized {
    /// The names in the order they were added; the `k`-th has code `k`.
    spec fn tags(&self) -> Seq<Seq<char>>;

    spec fn wf(&self) -> bool;

    /// The code of `tag`, which is added first if new; `None` when all codes are taken.
    fn encode(&mut self, tag: &str) -> (r: Option<u16>)
        requires
            old(self).wf(),
        ensures
            final(self).wf(),
            with_tag(old(self).tags(), tag@).len() <= max_tags() ==> {
                &&& final(self).tags() == with_tag(old(self).tags(), tag@)
                &&& r == Some(tag_index(final(self).tags(), tag@) as u16)
            },
            with_tag(old(self).tags(), tag@).len() > max_tags() ==> {
                &&& final(self).tags() == old(self).tags()
                &&& r is None
            },
    ;

    /// The name whose code is `code`.
    fn decode(&self, code: u16) -> (r: Option<&str>)
        requires
            self.wf(),
        ensures
            r matches Some(s) ==> tag_for(self.tags(), code as nat) == Some(s@),
            r is None ==> tag_for(self.tags(), code as nat) is None,
    ;
}

/// A character table that grows as characters are encoded.
pub struct DynamicSymbolTable {
    symbols: Vec<char>,
}

/// A name table that grows as names are encoded.
pub struct DynamicTagTable {
    tags: Vec<String>,
}

impl DynamicSymbolTable {
    /// An empty table.
    pub fn new() -> (r: Self)
        ensures
            r.wf(),
            r.symbols() == Seq::<char>::empty(),
    {
        DynamicSymbolTable { symbols: Vec::new() }
    }
}

impl DynamicTagTable {
    /// An empty table.
    pub fn new() -> (r: Self)
        ensures
            r.wf(),
            r.tags() == Seq::<Seq<char>>::empty(),
    {
        let r = DynamicTagTable { tags: Vec::new() };
        proof {
            assert(names_of(r.tags@) =~= Seq::<Seq<char>>::empty());
        }
        r
    }
}

impl SymbolTable for DynamicSymbolTable {
    closed spec fn symbols(&self) -> Seq<char> {
        self.symbols@
    }

    closed spec fn wf(&self) -> bool {
        &&& distinct_chars(self.symbols@)
        &&& self.symbols@.len() <= max_tags()
    }

    fn encode(&mut self, symbol: char) -> (r: Option<u16>) {
        let mut i: usize = 0;
        while i < self.symbols.len()
            invariant
                i <= self.symbols@.len(),
                self.symbols@ == old(self).symbols@,
                distinct_chars(self.symbols@),
                self.symbols@.len() <= max_tags(),
                forall|j: int| 0 <= j < i ==> self.symbols@[j] != symbol,
            decreases self.symbols@.len() - i,
        {
            if self.symbols[i] == symbol {
                proof {
                    assert(self.symbols@.contains(symbol));
                    let k = char_index(self.symbols@, symbol);
                    assert(self.symbols@[k] == symbol);
                }
                return Some(i as u16);
            }
            i = i + 1;
        }
        if self.symbols.len() >= 65536 {
            return None;
        }
        let code = self.symbols.len();
        self.symbols.push(symbol);
        proof {
            assert(self.symbols@ == with_symbol(old(self).symbols@, symbol));
            let k = char_index(self.symbols@, symbol);
            assert(self.symbols@[code as int] == symbol);
            assert(self.symbols@[k] == symbol);
        }
        Some(code as u16)
    }

    fn decode(&self, code: u16) -> (r: Option<char>) {
        if (code as usize) < self.symbols.len() {
            Some(self.symbols[code as usize])
        } else {
            None
        }
    }
}

impl TagTable for DynamicTagTable {
    closed spec fn tags(&self) -> Seq<Seq<char>> {
        names_of(self.tags@)
    }

    closed spec fn wf(&self) -> bool {
        &&& distinct_names(names_of(self.tags@))
        &&& self.tags@.len() <= max_tags()
    }

    fn encode(&mut self, tag: &str) -> (r: Option<u16>) {
        let name = tag.to_owned();
        let mut i: usize = 0;
        while i < self.tags.len()
            invariant
                i <= self.tags@.len(),
                self.tags@ == old(self).tags@,
                distinct_names(names_of(self.tags@)),
                self.tags@.len() <= max_tags(),
                name@ == tag@,
                forall|j: int| 0 <= j < i ==> self.tags@[j]@ != tag@,
            decreases self.tags@.len() - i,
        {
            if self.tags[i] == name {
                proof {
                    assert(names_of(self.tags@)[i as int] == tag@);
                    assert(names_of(self.tags@).contains(tag@));
                    let k = tag_index(names_of(self.tags@), tag@);
                    assert(names_of(self.tags@)[k] == tag@);
                }
                return Some(i as u16);
            }
            i = i + 1;
        }
        proof {
            assert(!names_of(self.tags@).contains(tag@)) by {
                if names_of(self.tags@).contains(tag@) {
                    let k = choose|k: int|
                        0 <= k < names_of(self.tags@).len() && names_of(self.tags@)[k] == tag@;
                    assert(self.tags@[k]@ == tag@);
                }
            }
        }
        if self.tags.len() >= 65536 {
            return None;
        }
        let code = self.tags.len();
        self.tags.push(name);
        proof {
            assert(names_of(self.tags@) =~= names_of(old(self).tags@).push(tag@));
            let t = names_of(self.tags@);
            let k = tag_index(t, tag@);
            assert(t[code as int] == tag@);
            assert(t.contains(tag@));
            assert(t[k] == tag@);
        }
        Some(code as u16)
    }

    fn decode(&self, code: u16) -> (r: Option<&str>) {
        if (code as usize) < self.tags.len() {
            Some(self.tags[code as usize].as_str())
        } else {
            None
        }
    }
}

} // verus!
