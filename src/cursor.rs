//! A character cursor with look-ahead, over itertools' `MultiPeek`.

use vstd::prelude::*;

use itertools::{Itertools, MultiPeek};
use std::vec::IntoIter;

use crate::text::string_of;

verus! {

#[verifier::external_type_specification]
#[verifier::external_body]
#[verifier::reject_recursive_types(I)]
pub struct ExMultiPeek<I: Iterator>(MultiPeek<I>);

/// The characters that a cursor has yet to hand out.
pub uninterp spec fn cursor_rest(m: MultiPeek<IntoIter<char>>) -> Seq<char>;

/// How many characters a cursor has peeked at since it last moved or was reset.
pub uninterp spec fn cursor_peeked(m: MultiPeek<IntoIter<char>>) -> nat;

/// Relies on `Itertools::multipeek`: a cursor over the characters, none peeked at yet.
#[verifier::external_body]
pub fn multipeek_chars(v: Vec<char>) -> (r: MultiPeek<IntoIter<char>>)
    ensures
        cursor_rest(r) == v@,
        cursor_peeked(r) == 0,
{
    v.into_iter().multipeek()
}

/// Relies on `MultiPeek::peek`: the character after those already peeked at,
/// which moves the peek mark on by one; `None`, and no move, past the end.
#[verifier::external_body]
pub fn peek_char(m: &mut MultiPeek<IntoIter<char>>) -> (r: Option<char>)
    ensures
        cursor_rest(*final(m)) == cursor_rest(*old(m)),
        cursor_peeked(*old(m)) < cursor_rest(*old(m)).len() ==> {
            &&& r == Some(cursor_rest(*old(m))[cursor_peeked(*old(m)) as int])
            &&& cursor_peeked(*final(m)) == cursor_peeked(*old(m)) + 1
        },
        cursor_peeked(*old(m)) >= cursor_rest(*old(m)).len() ==> {
            &&& r is None
            &&& cursor_peeked(*final(m)) == cursor_peeked(*old(m))
        },
{
    m.peek().copied()
}

/// Relies on `MultiPeek`'s `Iterator::next`: takes the first character and resets
/// the peek mark.
#[verifier::external_body]
pub fn next_char(m: &mut MultiPeek<IntoIter<char>>) -> (r: Option<char>)
    ensures
        cursor_peeked(*final(m)) == 0,
        cursor_rest(*old(m)).len() > 0 ==> {
            &&& r == Some(cursor_rest(*old(m))[0])
            &&& cursor_rest(*final(m)) == cursor_rest(*old(m)).drop_first()
        },
        cursor_rest(*old(m)).len() == 0 ==> {
            &&& r is None
            &&& cursor_rest(*final(m)) == cursor_rest(*old(m))
        },
{
    m.next()
}

/// Relies on `MultiPeek::reset_peek`: the peek mark goes back to the first character.
#[verifier::external_body]
pub fn reset_peek(m: &mut MultiPeek<IntoIter<char>>)
    ensures
        cursor_peeked(*final(m)) == 0,
        cursor_rest(*final(m)) == cursor_rest(*old(m)),
{
    m.reset_peek()
}

/// The characters of `s` before its first space.
pub open spec fn until_space(s: Seq<char>) -> Seq<char>
    decreases s.len(),
{
    if s.len() == 0 || s[0] == ' ' {
        Seq::empty()
    } else {
        seq![s[0]] + until_space(s.drop_first())
    }
}

/// The characters before the first space come first, and hold no space.
pub proof fn lemma_until_space(s: Seq<char>)
    ensures
        until_space(s).len() <= s.len(),
        until_space(s) == s.take(until_space(s).len() as int),
        forall|k: int| 0 <= k < until_space(s).len() ==> #[trigger] until_space(s)[k] != ' ',
        until_space(s).len() < s.len() ==> s[until_space(s).len() as int] == ' ',
        s.len() > 0 && s[0] != ' ' ==> until_space(s).len() > 0,
    decreases s.len(),
{
    if s.len() > 0 && s[0] != ' ' {
        lemma_until_space(s.drop_first());
        let t = until_space(s.drop_first());
        assert(until_space(s) == seq![s[0]] + t);
        assert(until_space(s) =~= s.take(until_space(s).len() as int));
        assert forall|k: int| 0 <= k < until_space(s).len() implies #[trigger] until_space(s)[k]
            != ' ' by {
            if k > 0 {
                assert(until_space(s)[k] == t[k - 1]);
            }
        }
        if until_space(s).len() < s.len() {
            assert(s[until_space(s).len() as int] == s.drop_first()[t.len() as int]);
        }
    } else {
        assert(s.take(0) =~= Seq::<char>::empty());
    }
}

/// Takes the characters up to, not including, the next space.
pub fn consume_until_space(chars: &mut MultiPeek<IntoIter<char>>) -> (r: String)
    requires
        cursor_peeked(*old(chars)) == 0,
    ensures
        r@ == until_space(cursor_rest(*old(chars))),
        cursor_rest(*final(chars)) == cursor_rest(*old(chars)).skip(r@.len() as int),
        cursor_peeked(*final(chars)) == 0,
{
    let ghost all = cursor_rest(*chars);
    proof {
        lemma_until_space(all);
    }
    let mut result: Vec<char> = Vec::new();
    loop
        invariant
            cursor_peeked(*chars) == 0,
            result@.len() <= all.len(),
            cursor_rest(*chars) == all.skip(result@.len() as int),
            result@ == all.take(result@.len() as int),
            result@.len() <= until_space(all).len(),
            until_space(all).len() <= all.len(),
            until_space(all) == all.take(until_space(all).len() as int),
            forall|k: int| 0 <= k < until_space(all).len() ==> #[trigger] until_space(all)[k] != ' ',
            until_space(all).len() < all.len() ==> all[until_space(all).len() as int] == ' ',
        ensures
            cursor_peeked(*chars) == 0,
            cursor_rest(*chars) == all.skip(result@.len() as int),
            result@ == all.take(result@.len() as int),
            result@.len() == until_space(all).len(),
        decreases all.len() - result@.len(),
    {
        let c = match peek_char(chars) {
            Some(c) => c,
            None => {
                reset_peek(chars);
                proof {
                    assert(all.skip(result@.len() as int).len() == 0);
                }
                break;
            },
        };
        if c == ' ' {
            reset_peek(chars);
            proof {
                if result@.len() < until_space(all).len() {
                    assert(all.take(until_space(all).len() as int)[result@.len() as int]
                        == all[result@.len() as int]);
                    assert(until_space(all)[result@.len() as int] == all[result@.len() as int]);
                }
            }
            break;
        }
        proof {
            assert(c == all[result@.len() as int]);
            if result@.len() == until_space(all).len() {
                assert(until_space(all).len() < all.len());
            }
        }
        next_char(chars);
        result.push(c);
        proof {
            assert(result@ =~= all.take(result@.len() as int));
            assert(cursor_rest(*chars) =~= all.skip(result@.len() as int));
        }
    }
    proof {
        assert(result@ =~= until_space(all));
    }
    string_of(result.as_slice())
}

/// Whether a character has Unicode's `White_Space` property, as
/// `char::is_whitespace` tests it.
pub open spec fn white_space(c: char) -> bool {
    let u = c as u32;
    ||| 9 <= u <= 13
    ||| u == 32
    ||| u == 0x85
    ||| u == 0xA0
    ||| u == 0x1680
    ||| 0x2000 <= u <= 0x200A
    ||| u == 0x2028
    ||| u == 0x2029
    ||| u == 0x202F
    ||| u == 0x205F
    ||| u == 0x3000
}

/// Whether a character has Unicode's `White_Space` property.
fn is_white_space(c: char) -> (r: bool)
    ensures
        r == white_space(c),
{
    let u = c as u32;
    (9 <= u && u <= 13) || u == 32 || u == 0x85 || u == 0xA0 || u == 0x1680 || (0x2000 <= u && u
        <= 0x200A) || u == 0x2028 || u == 0x2029 || u == 0x202F || u == 0x205F || u == 0x3000
}

/// The characters of `s` before its first whitespace.
pub open spec fn until_white_space(s: Seq<char>) -> Seq<char>
    decreases s.len(),
{
    if s.len() == 0 || white_space(s[0]) {
        Seq::empty()
    } else {
        seq![s[0]] + until_white_space(s.drop_first())
    }
}

proof fn lemma_until_white_space(s: Seq<char>)
    ensures
        until_white_space(s).len() <= s.len(),
        until_white_space(s) == s.take(until_white_space(s).len() as int),
        forall|k: int|
            0 <= k < until_white_space(s).len() ==> !white_space(#[trigger] until_white_space(s)[k]),
        until_white_space(s).len() < s.len() ==> white_space(s[until_white_space(s).len() as int]),
    decreases s.len(),
{
    if s.len() > 0 && !white_space(s[0]) {
        lemma_until_white_space(s.drop_first());
        let t = until_white_space(s.drop_first());
        assert(until_white_space(s) == seq![s[0]] + t);
        assert(until_white_space(s) =~= s.take(until_white_space(s).len() as int));
        assert forall|k: int| 0 <= k < until_white_space(s).len() implies !white_space(
            #[trigger] until_white_space(s)[k],
        ) by {
            if k > 0 {
                assert(until_white_space(s)[k] == t[k - 1]);
            }
        }
        if until_white_space(s).len() < s.len() {
            assert(s[until_white_space(s).len() as int] == s.drop_first()[t.len() as int]);
        }
    } else {
        assert(s.take(0) =~= Seq::<char>::empty());
    }
}

/// Takes the characters up to, not including, the next whitespace.
pub fn consume_until_whitespace(chars: &mut MultiPeek<IntoIter<char>>) -> (r: String)
    requires
        cursor_peeked(*old(chars)) == 0,
    ensures
        r@ == until_white_space(cursor_rest(*old(chars))),
        cursor_rest(*final(chars)) == cursor_rest(*old(chars)).skip(r@.len() as int),
        cursor_peeked(*final(chars)) == 0,
{
    let ghost all = cursor_rest(*chars);
    proof {
        lemma_until_white_space(all);
    }
    let ghost stop = until_white_space(all);
    let mut result: Vec<char> = Vec::new();
    loop
        invariant
            cursor_peeked(*chars) == 0,
            result@.len() <= all.len(),
            cursor_rest(*chars) == all.skip(result@.len() as int),
            result@ == all.take(result@.len() as int),
            result@.len() <= stop.len(),
            stop.len() <= all.len(),
            stop == all.take(stop.len() as int),
            forall|k: int| 0 <= k < stop.len() ==> !white_space(#[trigger] stop[k]),
            stop.len() < all.len() ==> white_space(all[stop.len() as int]),
        ensures
            cursor_peeked(*chars) == 0,
            cursor_rest(*chars) == all.skip(result@.len() as int),
            result@ == all.take(result@.len() as int),
            result@.len() == stop.len(),
        decreases all.len() - result@.len(),
    {
        let c = match peek_char(chars) {
            Some(c) => c,
            None => {
                reset_peek(chars);
                proof {
                    assert(all.skip(result@.len() as int).len() == 0);
                }
                break;
            },
        };
        if is_white_space(c) {
            reset_peek(chars);
            proof {
                if result@.len() < stop.len() {
                    assert(all.take(stop.len() as int)[result@.len() as int]
                        == all[result@.len() as int]);
                    assert(stop[result@.len() as int] == all[result@.len() as int]);
                }
            }
            break;
        }
        proof {
            assert(c == all[result@.len() as int]);
            if result@.len() == stop.len() {
                assert(stop.len() < all.len());
            }
        }
        next_char(chars);
        result.push(c);
        proof {
            assert(result@ =~= all.take(result@.len() as int));
            assert(cursor_rest(*chars) =~= all.skip(result@.len() as int));
        }
    }
    proof {
        assert(result@ =~= stop);
    }
    string_of(result.as_slice())
}

} // verus!
