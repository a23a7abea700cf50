//! The text form of ranges.
use vstd::prelude::*;
use vstd::string::*;

verus! {

/// Whether a character is white space.
pub open spec fn is_space(c: char) -> bool {
    let v = c as int;
    ||| 9 <= v <= 13
    ||| v == 0x20
    ||| v == 0x85
    ||| v == 0xa0
    ||| v == 0x1680
    ||| 0x2000 <= v <= 0x200a
    ||| v == 0x2028
    ||| v == 0x2029
    ||| v == 0x202f
    ||| v == 0x205f
    ||| v == 0x3000
}

fn is_space_char(c: char) -> (r: bool)
    ensures
        r == is_space(c),
{
    let v: u32 = c as u32;
    (9 <= v && v <= 13) || v == 0x20 || v == 0x85 || v == 0xa0 || v == 0x1680 || (0x2000 <= v && v
        <= 0x200a) || v == 0x2028 || v == 0x2029 || v == 0x202f || v == 0x205f || v == 0x3000
}

/// The text without white space in front.
pub open spec fn trim_front(text: Seq<char>) -> Seq<char>
    decreases text.len(),
{
    if text.len() > 0 && is_space(text[0]) {
        trim_front(text.skip(1))
    } else {
        text
    }
}

/// The text without white space behind.
pub open spec fn trim_back(text: Seq<char>) -> Seq<char>
    decreases text.len(),
{
    if text.len() > 0 && is_space(text.last()) {
        trim_back(text.drop_last())
    } else {
        text
    }
}

/// The text without white space around it.
pub open spec fn trimmed(text: Seq<char>) -> Seq<char> {
    trim_back(trim_front(text))
}

/// The text without white space around it.
pub fn trim_text(text: &str) -> (r: &str)
    ensures
        r@ == trimmed(text@),
{
    let len: usize = text.unicode_len();
    let mut start: usize = 0;
    proof {
        assert(text@.skip(0) =~= text@);
    }
    while start < len && is_space_char(text.get_char(start))
        invariant
            len == text@.len(),
            start <= len,
            trim_front(text@) == trim_front(text@.skip(start as int)),
        decreases len - start,
    {
        proof {
            assert(text@.skip(start as int).skip(1) =~= text@.skip(start + 1));
            assert(text@.skip(start as int)[0] == text@[start as int]);
        }
        start = start + 1;
    }
    proof {
        if start < len {
            assert(text@.skip(start as int)[0] == text@[start as int]);
        }
        assert(trim_front(text@) == text@.skip(start as int));
    }
    let mut end: usize = len;
    let ghost front = text@.skip(start as int);
    proof {
        assert(text@.subrange(start as int, len as int) =~= front);
    }
    while end > start && is_space_char(text.get_char(end - 1))
        invariant
            len == text@.len(),
            start <= end <= len,
            front == text@.skip(start as int),
            trim_back(front) == trim_back(text@.subrange(start as int, end as int)),
        decreases end - start,
    {
        proof {
            let part = text@.subrange(start as int, end as int);
            assert(part.drop_last() =~= text@.subrange(start as int, end - 1));
            assert(part.last() == text@[end - 1]);
        }
        end = end - 1;
    }
    proof {
        let part = text@.subrange(start as int, end as int);
        if end > start {
            assert(part.last() == text@[end - 1]);
        }
    }
    text.substring_char(start, end)
}

/// The place of the first occurrence of a character; the length of the text if there is none.
pub open spec fn first_place(text: Seq<char>, c: char) -> nat
    decreases text.len(),
{
    if text.len() == 0 {
        0
    } else if text[0] == c {
        0
    } else {
        1 + first_place(text.skip(1), c)
    }
}

/// The place of the first occurrence of a character; the length of the text if there is none.
pub fn find_char(text: &str, c: char) -> (r: usize)
    ensures
        r == first_place(text@, c),
        r <= text@.len(),
{
    let len: usize = text.unicode_len();
    let mut place: usize = 0;
    proof {
        assert(text@.skip(0) =~= text@);
    }
    while place < len && text.get_char(place) != c
        invariant
            len == text@.len(),
            place <= len,
            first_place(text@, c) == place + first_place(text@.skip(place as int), c),
        decreases len - place,
    {
        proof {
            assert(text@.skip(place as int).skip(1) =~= text@.skip(place + 1));
            assert(text@.skip(place as int)[0] == text@[place as int]);
        }
        place = place + 1;
    }
    proof {
        if place < len {
            assert(text@.skip(place as int)[0] == text@[place as int]);
        }
    }
    place
}

/// The cards of a range token and the text of its weight.
pub ghost struct TokenText {
    pub cards: Seq<char>,
    pub weight: Option<Seq<char>>,
}

/// A range token is split at its first colon.
pub open spec fn token_of(text: Seq<char>) -> TokenText {
    let place = first_place(text, ':');
    if place < text.len() {
        TokenText {
            cards: text.subrange(0, place as int),
            weight: Some(text.subrange((place + 1) as int, text.len() as int)),
        }
    } else {
        TokenText { cards: text, weight: None }
    }
}

/// The tokens of a range: the parts between commas, trimmed, without the empty ones.
pub open spec fn tokens_of(text: Seq<char>) -> Seq<TokenText>
    decreases text.len(),
{
    let place = first_place(text, ',');
    if place < text.len() {
        let rest = tokens_of(text.subrange((place + 1) as int, text.len() as int));
        let part = trimmed(text.subrange(0, place as int));
        if part.len() == 0 {
            rest
        } else {
            seq![token_of(part)] + rest
        }
    } else {
        let part = trimmed(text);
        if part.len() == 0 {
            Seq::empty()
        } else {
            seq![token_of(part)]
        }
    }
}

/// The cards of a range token, and the text of its weight if it has one.
#[derive(Clone, Debug, PartialEq, Eq)]
pub struct RangeToken {
    pub cards: String,
    pub weight: Option<String>,
}

impl View for RangeToken {
    type V = TokenText;

    open spec fn view(&self) -> TokenText {
        TokenText {
            cards: self.cards@,
            weight: match self.weight {
                Some(weight) => Some(weight@),
                None => None,
            },
        }
    }
}

fn split_token(text: &str) -> (r: RangeToken)
    ensures
        r@ == token_of(text@),
{
    let place: usize = find_char(text, ':');
    let len: usize = text.unicode_len();
    if place < len {
        RangeToken {
            cards: text.substring_char(0, place).to_owned(),
            weight: Some(text.substring_char(place + 1, len).to_owned()),
        }
    } else {
        RangeToken { cards: text.to_owned(), weight: None }
    }
}

/// The tokens of a range text.
pub fn range_tokens(text: &str) -> (r: Vec<RangeToken>)
    ensures
        r@.len() == tokens_of(text@).len(),
        forall|i: int| 0 <= i < r@.len() ==> (#[trigger] r@[i])@ == tokens_of(text@)[i],
{
    let mut tokens: Vec<RangeToken> = Vec::new();
    let mut rest: &str = text;
    let mut more: bool = true;
    let ghost all = tokens_of(text@);
    while more
        invariant
            all == tokens_of(text@),
            tokens@.len() <= all.len(),
            forall|i: int| 0 <= i < tokens@.len() ==> (#[trigger] tokens@[i])@ == all[i],
            more ==> all.skip(tokens@.len() as int) == tokens_of(rest@),
            !more ==> tokens@.len() == all.len(),
        decreases (if more { 1 + rest@.len() } else { 0 }),
    {
        let place: usize = find_char(rest, ',');
        let len: usize = rest.unicode_len();
        let raw: &str = if place < len {
            rest.substring_char(0, place)
        } else {
            rest
        };
        let part: &str = trim_text(raw);
        let ghost count = tokens@.len();
        if part.unicode_len() > 0 {
            tokens.push(split_token(part));
            proof {
                let tail = all.skip(count as int);
                assert(tail == tokens_of(rest@));
                assert(tail.len() > 0);
                assert(tail.len() == all.len() - count);
                assert(tail[0] == token_of(part@));
                assert(all[count as int] == tail[0]);
            }
        }
        if place < len {
            proof {
                let tail = all.skip(count as int);
                let next = tokens_of(rest@.subrange(place + 1, len as int));
                if part@.len() > 0 {
                    assert(tail =~= seq![token_of(part@)] + next);
                    assert(all.skip((count + 1) as int) =~= tail.skip(1));
                    assert(tail.skip(1) =~= next);
                }
            }
            rest = rest.substring_char(place + 1, len);
        } else {
            proof {
                let tail = all.skip(count as int);
                assert(tail == tokens_of(rest@));
                assert(tail.len() == all.len() - count);
            }
            more = false;
        }
    }
    tokens
}

/// A letter in lower case, other characters as they are.
pub open spec fn lower(c: char) -> char {
    if 'A' <= c <= 'Z' {
        (c as int + 32) as char
    } else {
        c
    }
}

/// Whether a text stands for the range of all combos.
pub open spec fn names_full(text: Seq<char>) -> bool {
    let t = trimmed(text);
    t.len() == 4 && lower(t[0]) == 'f' && lower(t[1]) == 'u' && lower(t[2]) == 'l' && lower(t[3]) == 'l'
}

fn is_letter(c: char, small: char, large: char) -> (r: bool)
    requires
        'a' <= small <= 'z',
        large as int + 32 == small as int,
    ensures
        r == (lower(c) == small),
{
    c == small || c == large
}

/// Whether a text stands for the range of all combos.
pub fn is_full_range(text: &str) -> (r: bool)
    ensures
        r == names_full(text@),
{
    let t: &str = trim_text(text);
    t.unicode_len() == 4 && is_letter(t.get_char(0), 'f', 'F') && is_letter(t.get_char(1), 'u', 'U')
        && is_letter(t.get_char(2), 'l', 'L') && is_letter(t.get_char(3), 'l', 'L')
}

} // verus!
