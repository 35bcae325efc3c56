//! Text helpers: equality, prefixes and lists of strings, with contracts over their characters.

use vstd::prelude::*;
use vstd::string::StrSliceExecFns;

verus! {

/// The characters of each string of a list.
pub open spec fn texts(list: Seq<String>) -> Seq<Seq<char>> {
    Seq::new(list.len(), |i: int| list[i]@)
}

/// `prefix` is how `text` begins.
pub open spec fn begins_with(text: Seq<char>, prefix: Seq<char>) -> bool {
    prefix.len() <= text.len() && text.subrange(0, prefix.len() as int) == prefix
}

/// A number in decimal digits.
pub open spec fn number_text(n: nat) -> Seq<char>
    decreases n,
{
    if n < 10 {
        seq![(48 + n) as char]
    } else {
        number_text(n / 10).push((48 + n % 10) as char)
    }
}

/// A number in decimal digits, with a minus sign in front where it is negative.
pub open spec fn integer_text(n: int) -> Seq<char> {
    if n < 0 {
        seq!['-'] + number_text((-n) as nat)
    } else {
        number_text(n as nat)
    }
}

/// Whether two strings hold the same characters.
pub fn same_text(a: &str, b: &str) -> (same: bool)
    ensures
        same == (a@ == b@),
{
    a.to_owned() == b.to_owned()
}

/// Whether `text` begins with `prefix`.
pub fn has_prefix(text: &str, prefix: &str) -> (yes: bool)
    ensures
        yes == begins_with(text@, prefix@),
{
    let size: usize = prefix.unicode_len();
    if text.unicode_len() < size {
        return false;
    }
    same_text(text.substring_char(0, size), prefix)
}

/// Whether two lists of strings are equal, item by item.
pub fn same_texts(a: &Vec<String>, b: &Vec<String>) -> (same: bool)
    ensures
        same == (texts(a@) == texts(b@)),
{
    if a.len() != b.len() {
        assert(texts(a@).len() != texts(b@).len());
        return false;
    }
    let mut i: usize = 0;
    while i < a.len()
        invariant
            i <= a.len() == b.len(),
            forall|j: int| 0 <= j < i ==> #[trigger] a@[j]@ == b@[j]@,
        decreases a.len() - i,
    {
        if a[i] != b[i] {
            assert(texts(a@)[i as int] != texts(b@)[i as int]);
            return false;
        }
        i += 1;
    }
    assert(texts(a@) =~= texts(b@));
    true
}

/// A copy of a list of strings.
pub fn copy_texts(list: &Vec<String>) -> (copy: Vec<String>)
    ensures
        texts(copy@) == texts(list@),
{
    let mut copy: Vec<String> = Vec::new();
    let mut i: usize = 0;
    while i < list.len()
        invariant
            i <= list.len(),
            copy.len() == i,
            forall|j: int| 0 <= j < i ==> #[trigger] copy@[j]@ == list@[j]@,
        decreases list.len() - i,
    {
        copy.push(list[i].clone());
        i += 1;
    }
    assert(texts(copy@) =~= texts(list@));
    copy
}

/// A text begins with another if and only if it is that other and then something.
pub proof fn law_prefix_and_rest(text: Seq<char>, prefix: Seq<char>)
    ensures
        begins_with(text, prefix) <==> exists|rest: Seq<char>| text == #[trigger] (prefix + rest),
{
    let n = prefix.len() as int;
    if begins_with(text, prefix) {
        assert(text =~= prefix + text.skip(n));
    }
    if exists|rest: Seq<char>| text == #[trigger] (prefix + rest) {
        let rest = choose|rest: Seq<char>| text == #[trigger] (prefix + rest);
        assert(text.subrange(0, n) =~= prefix);
    }
}

/// The number that some decimal digits stand for.
pub open spec fn digits_value(digits: Seq<char>) -> int
    decreases digits.len(),
{
    if digits.len() == 0 {
        0
    } else {
        10 * digits_value(digits.drop_last()) + (digits.last() as int - '0' as int)
    }
}

/// The text of a number is made of decimal digits, which stand for that number, and does not begin
/// with a zero unless it is one. A negative number has a minus sign in front.
pub proof fn law_text_stands_for_the_number(n: nat)
    ensures
        number_text(n).len() > 0,
        forall|i: int|
            0 <= i < number_text(n).len() ==> '0' as int <= #[trigger] number_text(n)[i] as int
                <= '9' as int,
        digits_value(number_text(n)) == n,
        n > 0 ==> number_text(n)[0] != '0',
        integer_text(n as int) == number_text(n),
        n > 0 ==> integer_text(-(n as int)) == seq!['-'] + number_text(n),
    decreases n,
{
    if n < 10 {
        assert(number_text(n).drop_last() =~= Seq::<char>::empty());
        assert(digits_value(Seq::<char>::empty()) == 0);
        assert(number_text(n).last() as int == 48 + n);
    } else {
        law_text_stands_for_the_number(n / 10);
        let front = number_text(n / 10);
        let text = number_text(n);
        assert(text.drop_last() =~= front);
        assert(text.last() as int == 48 + n % 10);
        assert forall|i: int| 0 <= i < text.len() implies '0' as int <= #[trigger] text[i] as int
            <= '9' as int by {
            if i < front.len() {
                assert(text[i] == front[i]);
            }
        }
        assert(text[0] == front[0]);
    }
}

} // verus!
