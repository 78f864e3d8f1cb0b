//! White space and its removal.

use vstd::prelude::*;

verus! {

/// The characters that have the Unicode property `White_Space`.
pub open spec fn is_white_space(c: char) -> bool {
    let u = c as u32;
    ||| 0x09 <= u <= 0x0D
    ||| u == 0x20
    ||| u == 0x85
    ||| u == 0xA0
    ||| u == 0x1680
    ||| 0x2000 <= u <= 0x200A
    ||| u == 0x2028
    ||| u == 0x2029
    ||| u == 0x202F
    ||| u == 0x205F
    ||| u == 0x3000
}

/// What is left of a text once its white space is gone.
pub open spec fn without_white_space(text: Seq<char>) -> Seq<char> {
    text.filter(|c: char| !is_white_space(c))
}

/// `char::is_whitespace` of std: it tells whether the character has the Unicode property
/// `White_Space`.
pub assume_specification[ char::is_whitespace ](c: char) -> (white: bool)
    ensures
        white == is_white_space(c),
;

/// `String::push` of std: it appends the character to the end of the string.
pub assume_specification[ String::push ](s: &mut String, c: char)
    ensures
        final(s)@ == old(s)@.push(c),
;

/// Removes every white space character and keeps the others in their order.
pub fn strip_whitespace(line: &str) -> (stripped: String)
    ensures
        stripped@ == without_white_space(line@),
{
    let mut stripped = String::new();
    let ghost keep = |c: char| !is_white_space(c);
    proof {
        reveal(Seq::filter);
        assert(line@.take(0).filter(keep) =~= Seq::<char>::empty());
    }
    for c in it: line.chars()
        invariant
            it.seq() == line@,
            keep == (|c: char| !is_white_space(c)),
            stripped@ == line@.take(it.index()).filter(keep),
    {
        proof {
            let i = it.index();
            assert(line@.take(i + 1).drop_last() =~= line@.take(i));
            reveal(Seq::filter);
        }
        if !c.is_whitespace() {
            stripped.push(c);
        }
    }
    assert(line@.take(line@.len() as int) =~= line@);
    stripped
}

/// What is left once white space is gone holds none, and everything else is still there.
pub proof fn law_stripping_removes_white_space(text: Seq<char>)
    ensures
        forall|i: int|
            0 <= i < without_white_space(text).len() ==> !is_white_space(
                #[trigger] without_white_space(text)[i],
            ),
        forall|i: int|
            0 <= i < text.len() && !is_white_space(#[trigger] text[i])
                ==> without_white_space(text).contains(text[i]),
    decreases text.len(),
{
    reveal(Seq::filter);
    if text.len() > 0 {
        let front = text.drop_last();
        let kept = without_white_space(front);
        law_stripping_removes_white_space(front);
        assert forall|i: int| 0 <= i < text.len() && !is_white_space(#[trigger] text[i]) implies
            without_white_space(text).contains(text[i]) by {
            if i < front.len() {
                assert(!is_white_space(front[i]));
                let k = choose|k: int| 0 <= k < kept.len() && kept[k] == text[i];
                assert(without_white_space(text)[k] == text[i]);
            } else {
                assert(without_white_space(text).last() == text[i]);
            }
        }
    }
}

/// A text without white space stays as it is, so to strip twice is to strip once.
pub proof fn law_stripping_twice_is_stripping_once(text: Seq<char>)
    ensures
        without_white_space(without_white_space(text)) == without_white_space(text),
{
    law_stripping_removes_white_space(text);
    lemma_nothing_to_strip(without_white_space(text));
}

proof fn lemma_nothing_to_strip(text: Seq<char>)
    requires
        forall|i: int| 0 <= i < text.len() ==> !is_white_space(#[trigger] text[i]),
    ensures
        without_white_space(text) == text,
    decreases text.len(),
{
    reveal(Seq::filter);
    if text.len() > 0 {
        assert(!is_white_space(text[text.len() - 1]));
        assert forall|i: int| 0 <= i < text.drop_last().len() implies !is_white_space(
            #[trigger] text.drop_last()[i],
        ) by {
            assert(text.drop_last()[i] == text[i]);
        }
        lemma_nothing_to_strip(text.drop_last());
        assert(text.drop_last().push(text.last()) =~= text);
    } else {
        assert(without_white_space(text) =~= text);
    }
}

/// White space is these 25 characters and no other.
pub proof fn law_white_space(c: char)
    ensures
        is_white_space(c) <==> set![
            0x09u32, 0x0A, 0x0B, 0x0C, 0x0D, 0x20, 0x85, 0xA0, 0x1680, 0x2000, 0x2001, 0x2002,
            0x2003, 0x2004, 0x2005, 0x2006, 0x2007, 0x2008, 0x2009, 0x200A, 0x2028, 0x2029, 0x202F,
            0x205F, 0x3000,
        ].contains(c as u32),
{
}

/// What is left keeps its order and its number: to strip one text and then another is to strip the
/// two in one.
pub proof fn law_stripping_goes_part_by_part(one: Seq<char>, other: Seq<char>)
    ensures
        without_white_space(one + other) == without_white_space(one) + without_white_space(other),
{
    Seq::filter_distributes_over_add(one, other, |c: char| !is_white_space(c));
}

/// Of a single character nothing is left where it is white space, and else the character; of an
/// empty text nothing is left.
pub proof fn law_stripping_a_character(c: char)
    ensures
        without_white_space(seq![c]) == (if is_white_space(c) {
            Seq::empty()
        } else {
            seq![c]
        }),
        without_white_space(Seq::empty()) == Seq::<char>::empty(),
{
    reveal(Seq::filter);
    let empty = Seq::<char>::empty();
    assert(without_white_space(empty) =~= empty);
    assert(seq![c].drop_last() =~= empty);
    assert(empty.push(c) =~= seq![c]);
}

/// What is left of a text is some of its characters, each at most as often as it stands there, in
/// their order: the characters at rising places, which are just the places without white space.
pub proof fn law_stripping_keeps_places(text: Seq<char>) -> (places: Seq<int>)
    ensures
        places.len() == without_white_space(text).len(),
        forall|a: int, b: int|
            0 <= a < b < places.len() ==> #[trigger] places[a] < #[trigger] places[b],
        forall|k: int|
            0 <= k < places.len() ==> 0 <= #[trigger] places[k] < text.len()
                && without_white_space(text)[k] == text[places[k]],
        forall|i: int|
            0 <= i < text.len() ==> (places.contains(i) <==> !is_white_space(#[trigger] text[i])),
    decreases text.len(),
{
    reveal(Seq::filter);
    if text.len() == 0 {
        Seq::empty()
    } else {
        let front = text.drop_last();
        let n = front.len() as int;
        let before = law_stripping_keeps_places(front);
        let places = if is_white_space(text.last()) {
            before
        } else {
            before.push(n)
        };
        assert forall|i: int| 0 <= i < text.len() implies (places.contains(i)
            <==> !is_white_space(#[trigger] text[i])) by {
            if i < n {
                assert(front[i] == text[i]);
            }
            if before.contains(i) {
                let k = choose|k: int| 0 <= k < before.len() && before[k] == i;
                assert(places[k] == i);
            }
            if places.contains(i) && i < n {
                let k = choose|k: int| 0 <= k < places.len() && places[k] == i;
                assert(before[k] == i);
            }
            if i == n && !is_white_space(text.last()) {
                assert(places[before.len() as int] == i);
            }
        }
        places
    }
}

} // verus!
