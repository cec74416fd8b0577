//! The tag table: element and attribute names and their sixteen-bit codes.

use vstd::prelude::*;

verus! {

/// Whether no name occurs twice in `s`.
pub open spec fn distinct_names(s: Seq<Seq<char>>) -> bool {
    forall|i: int, j: int| 0 <= i < j < s.len() ==> s[i] != s[j]
}

/// The names after `name` has been added, if it was not there yet.
pub open spec fn with_tag(tags: Seq<Seq<char>>, name: Seq<char>) -> Seq<Seq<char>> {
    if tags.contains(name) {
        tags
    } else {
        tags.push(name)
    }
}

/// The code of a name: where it stands, counted from zero.
pub open spec fn tag_index(tags: Seq<Seq<char>>, name: Seq<char>) -> int {
    choose|i: int| 0 <= i < tags.len() && tags[i] == name
}

/// The name that a code stands for, if any.
pub open spec fn tag_for(tags: Seq<Seq<char>>, code: nat) -> Option<Seq<char>> {
    if code < tags.len() {
        Some(tags[code as int])
    } else {
        None
    }
}

/// The most names that sixteen-bit codes can tell apart.
pub open spec fn max_tags() -> nat {
    65536
}

/// The views of a list of strings.
pub open spec fn names_of(v: Seq<String>) -> Seq<Seq<char>> {
    v.map_values(|s: String| s@)
}

/// A table of element and attribute names and their sixteen-bit codes.
pub trait XmlNTagTable: Sized {
    /// The names in the order they were added; the `k`-th has code `k`, from zero.
    spec fn tags(&self) -> Seq<Seq<char>>;

    spec fn wf(&self) -> bool;

    /// A well-formed table holds each name once and no more than the codes allow.
    proof fn lemma_wf(&self)
        requires
            self.wf(),
        ensures
            distinct_names(self.tags()),
            self.tags().len() <= max_tags(),
    ;

    /// The code of `tag`, which is added first if new; `None` when all codes are taken.
    fn encode(&mut self, tag: &str) -> (r: Option<u16>)
        requires
            old(self).wf(),
        ensures
            final(self).wf(),
            with_tag(old(self).tags(), tag@).len() <= max_tags() ==> {
                &&& final(self).tags() == with_tag(old(self).tags(), tag@)
                &&& r == Some(tag_index(final(self).tags(), tag@) as u16)
            },
            with_tag(old(self).tags(), tag@).len() > max_tags() ==> {
                &&& final(self).tags() == old(self).tags()
                &&& r is None
            },
    ;

    /// The name whose code is `code`.
    fn decode(&self, code: u16) -> (r: Option<&str>)
        requires
            self.wf(),
        ensures
            r matches Some(s) ==> tag_for(self.tags(), code as nat) == Some(s@),
            r is None ==> tag_for(self.tags(), code as nat) is None,
    ;

    /// The names in the order they were added.
    fn iter_tags(&self) -> (r: Vec<String>)
        requires
            self.wf(),
        ensures
            names_of(r@) == self.tags(),
    ;

    /// How many names the table holds.
    fn tag_count(&self) -> (r: usize)
        requires
            self.wf(),
        ensures
            r as nat == self.tags().len(),
    ;
}

/// A tag table that grows as names are encoded.
pub struct XmlNDynamicTagTable {
    tags: Vec<String>,
}

impl XmlNDynamicTagTable {
    /// An empty table.
    pub fn new() -> (r: Self)
        ensures
            r.wf(),
            r.tags() == Seq::<Seq<char>>::empty(),
    {
        let r = XmlNDynamicTagTable { tags: Vec::new() };
        proof {
            assert(names_of(r.tags@) =~= Seq::<Seq<char>>::empty());
        }
        r
    }
}

impl XmlNTagTable for XmlNDynamicTagTable {
    closed spec fn tags(&self) -> Seq<Seq<char>> {
        names_of(self.tags@)
    }

    closed spec fn wf(&self) -> bool {
        &&& distinct_names(names_of(self.tags@))
        &&& self.tags@.len() <= max_tags()
    }

    proof fn lemma_wf(&self) {
    }

    fn encode(&mut self, tag: &str) -> (r: Option<u16>) {
        let name = tag.to_owned();
        let mut i: usize = 0;
        while i < self.tags.len()
            invariant
                i <= self.tags@.len(),
                self.tags@ == old(self).tags@,
                distinct_names(names_of(self.tags@)),
                self.tags@.len() <= max_tags(),
                name@ == tag@,
                forall|j: int| 0 <= j < i ==> self.tags@[j]@ != tag@,
            decreases self.tags@.len() - i,
        {
            if self.tags[i] == name {
                proof {
                    assert(names_of(self.tags@)[i as int] == tag@);
                    assert(names_of(self.tags@).contains(tag@));
                    let k = tag_index(names_of(self.tags@), tag@);
                    assert(names_of(self.tags@)[k] == tag@);
                    assert(k == i as int);
                }
                return Some(i as u16);
            }
            i = i + 1;
        }
        proof {
            assert(!names_of(self.tags@).contains(tag@)) by {
                if names_of(self.tags@).contains(tag@) {
                    let k = choose|k: int| 0 <= k < names_of(self.tags@).len() && names_of(self.tags@)[k] == tag@;
                    assert(self.tags@[k]@ == tag@);
                }
            }
        }
        if self.tags.len() >= 65536 {
            return None;
        }
        let code = self.tags.len();
        self.tags.push(name);
        proof {
            assert(names_of(self.tags@) =~= names_of(old(self).tags@).push(tag@));
            let t = names_of(self.tags@);
            let k = tag_index(t, tag@);
            assert(t[code as int] == tag@);
            assert(t.contains(tag@));
            assert(t[k] == tag@);
            assert(k == code as int);
        }
        Some(code as u16)
    }

    fn decode(&self, code: u16) -> (r: Option<&str>) {
        if (code as usize) < self.tags.len() {
            Some(self.tags[code as usize].as_str())
        } else {
            None
        }
    }

    fn iter_tags(&self) -> (r: Vec<String>) {
        let r = self.tags.clone();
        proof {
            assert(names_of(r@) =~= names_of(self.tags@));
        }
        r
    }

    fn tag_count(&self) -> (r: usize) {
        self.tags.len()
    }
}

/// One line per name, in code order: the name, an arrow, its code.
pub open spec fn tag_listing(tags: Seq<Seq<char>>) -> Seq<char>
    decreases tags.len(),
{
    if tags.len() == 0 {
        Seq::empty()
    } else {
        tag_listing(tags.drop_last()) + "\n    "@ + tags.last() + " -> "@ + crate::digits::decimal(
            (tags.len() - 1) as nat,
        )
    }
}

impl XmlNDynamicTagTable {
    /// A listing of the table: each name with its code.
    pub fn to_string(&self) -> (r: String)
        requires
            self.wf(),
        ensures
            r@ == "XmlNTagTable\n  Tag mappings:"@ + tag_listing(self.tags()),
    {
        let mut out = crate::text::chars_of("XmlNTagTable\n  Tag mappings:");
        let ghost front = out@;
        let mut i: usize = 0;
        proof {
            assert(names_of(self.tags@).take(0) =~= Seq::<Seq<char>>::empty());
            assert(front + tag_listing(Seq::<Seq<char>>::empty()) =~= front);
        }
        while i < self.tags.len()
            invariant
                self.wf(),
                i <= self.tags@.len(),
                out@ == front + tag_listing(names_of(self.tags@).take(i as int)),
            decreases self.tags@.len() - i,
        {
            let mut line = crate::text::chars_of("\n    ");
            let mut name = crate::text::chars_of(self.tags[i].as_str());
            let mut arrow = crate::text::chars_of(" -> ");
            out.append(&mut line);
            out.append(&mut name);
            out.append(&mut arrow);
            crate::digits::push_decimal(i, &mut out);
            proof {
                let t = names_of(self.tags@).take(i as int + 1);
                assert(t.drop_last() == names_of(self.tags@).take(i as int));
                assert(t.last() == self.tags@[i as int]@);
                assert(out@ =~= front + tag_listing(t));
            }
            i = i + 1;
        }
        proof {
            assert(names_of(self.tags@).take(i as int) == names_of(self.tags@));
        }
        crate::text::string_of(out.as_slice())
    }
}

/// Decoding the code that encoding gave a name returns that name.
pub proof fn lemma_tag_round_trip(tags: Seq<Seq<char>>, name: Seq<char>)
    requires
        distinct_names(tags),
        with_tag(tags, name).len() <= max_tags(),
    ensures
        0 <= tag_index(with_tag(tags, name), name) < max_tags(),
        tag_for(with_tag(tags, name), tag_index(with_tag(tags, name), name) as nat) == Some(name),
{
    let t = with_tag(tags, name);
    if !tags.contains(name) {
        assert(t[tags.len() as int] == name);
    }
    assert(t.contains(name));
}

/// The names after each of `names` has been added in turn.
pub open spec fn tags_after(tags: Seq<Seq<char>>, names: Seq<Seq<char>>) -> Seq<Seq<char>>
    decreases names.len(),
{
    if names.len() == 0 {
        tags
    } else {
        with_tag(tags_after(tags, names.drop_last()), names.last())
    }
}

proof fn lemma_tags_after_prefix(tags: Seq<Seq<char>>, names: Seq<Seq<char>>)
    ensures
        tags.is_prefix_of(tags_after(tags, names)),
    decreases names.len(),
{
    if names.len() == 0 {
        assert(tags =~= tags.subrange(0, tags.len() as int));
    } else {
        lemma_tags_after_prefix(tags, names.drop_last());
        let a = tags_after(tags, names.drop_last());
        let b = tags_after(tags, names);
        assert(tags =~= b.subrange(0, tags.len() as int)) by {
            assert forall|i: int| 0 <= i < tags.len() implies tags[i] == b[i] by {
                assert(tags[i] == a.subrange(0, tags.len() as int)[i]);
                assert(b[i] == a[i]);
            }
        }
    }
}

/// A name keeps its code while later names are encoded: as long as codes remain,
/// decoding the code that encoding gave the name returns the name, however many
/// other names were encoded after it.
pub proof fn lemma_tag_code_kept(tags: Seq<Seq<char>>, name: Seq<char>, later: Seq<Seq<char>>)
    requires
        distinct_names(tags),
        tags_after(with_tag(tags, name), later).len() <= max_tags(),
    ensures
        tag_for(
            tags_after(with_tag(tags, name), later),
            tag_index(with_tag(tags, name), name) as nat,
        ) == Some(name),
{
    let t = with_tag(tags, name);
    lemma_tags_after_prefix(t, later);
    assert(t.len() <= max_tags());
    lemma_tag_round_trip(tags, name);
    let k = tag_index(t, name);
    let f = tags_after(t, later);
    assert(f.subrange(0, t.len() as int)[k] == f[k]);
}

} // verus!
