//! Small pieces of text: numbers in decimal, repeated pieces, and the
//! cells of a printed table.

use crate::boundary::texts;
use vstd::prelude::*;
use vstd::string::*;
use vstd::utf8::encode_utf8;

verus! {

/// The decimal digit for a number below ten.
pub open spec fn digit_char(digit: nat) -> char {
    if digit == 0 {
        '0'
    } else if digit == 1 {
        '1'
    } else if digit == 2 {
        '2'
    } else if digit == 3 {
        '3'
    } else if digit == 4 {
        '4'
    } else if digit == 5 {
        '5'
    } else if digit == 6 {
        '6'
    } else if digit == 7 {
        '7'
    } else if digit == 8 {
        '8'
    } else {
        '9'
    }
}

/// A number in decimal, without leading zeros.
pub open spec fn decimal(number: nat) -> Seq<char>
    decreases number,
{
    if number < 10 {
        seq![digit_char(number)]
    } else {
        decimal(number / 10).push(digit_char(number % 10))
    }
}

/// A piece of text written `count` times.
pub open spec fn repeated(piece: Seq<char>, count: nat) -> Seq<char>
    decreases count,
{
    if count == 0 {
        Seq::empty()
    } else {
        repeated(piece, (count - 1) as nat) + piece
    }
}

/// The number of bytes that a text takes in memory, as `str::len` counts
/// them.
pub open spec fn byte_len(text: Seq<char>) -> usize {
    encode_utf8(text).len() as usize
}

/// A truth value in letters.
pub open spec fn truth_text(value: bool) -> Seq<char> {
    if value {
        "true"@
    } else {
        "false"@
    }
}

/// The cell of a printed table for a truth value: the letter `T` or `F`
/// in the middle of `width` columns, nearer to the left where it cannot
/// be in the middle; the letter alone where there is no room.
pub open spec fn cell_text(value: bool, width: nat) -> Seq<char> {
    let letter = if value {
        "T"@
    } else {
        "F"@
    };
    if width <= 1 {
        letter
    } else {
        let left = ((width - 1) / 2) as nat;
        repeated(" "@, left) + letter + repeated(" "@, (width - 1 - left) as nat)
    }
}

fn digit_text(digit: u64) -> (text: &'static str)
    requires
        digit < 10,
    ensures
        text@ == seq![digit_char(digit as nat)],
{
    proof {
        reveal_strlit("0");
        reveal_strlit("1");
        reveal_strlit("2");
        reveal_strlit("3");
        reveal_strlit("4");
        reveal_strlit("5");
        reveal_strlit("6");
        reveal_strlit("7");
        reveal_strlit("8");
        reveal_strlit("9");
    }
    let text = if digit == 0 {
        "0"
    } else if digit == 1 {
        "1"
    } else if digit == 2 {
        "2"
    } else if digit == 3 {
        "3"
    } else if digit == 4 {
        "4"
    } else if digit == 5 {
        "5"
    } else if digit == 6 {
        "6"
    } else if digit == 7 {
        "7"
    } else if digit == 8 {
        "8"
    } else {
        "9"
    };
    assert(text@ =~= seq![digit_char(digit as nat)]);
    text
}

/// Writes a number in decimal.
pub fn decimal_text(number: u64) -> (text: String)
    ensures
        text@ == decimal(number as nat),
    decreases number,
{
    if number < 10 {
        String::from_str(digit_text(number))
    } else {
        let mut text = decimal_text(number / 10);
        text.append(digit_text(number % 10));
        assert(text@ =~= decimal(number as nat));
        text
    }
}

/// Writes a piece of text `count` times.
pub fn repeat(piece: &str, count: u128) -> (text: String)
    ensures
        text@ == repeated(piece@, count as nat),
{
    let mut text = String::new();
    let mut written: u128 = 0;
    proof {
        assert(text@ =~= repeated(piece@, 0));
    }
    while written < count
        invariant
            written <= count,
            text@ == repeated(piece@, written as nat),
        decreases count - written,
    {
        text.append(piece);
        written = written + 1;
    }
    text
}

/// Writes a truth value in letters.
pub fn truth(value: bool) -> (text: &'static str)
    ensures
        text@ == truth_text(value),
{
    if value {
        "true"
    } else {
        "false"
    }
}

/// Writes the cell of a printed table for a truth value.
pub fn cell(value: bool, width: usize) -> (text: String)
    ensures
        text@ == cell_text(value, width as nat),
{
    let letter = if value {
        "T"
    } else {
        "F"
    };
    if width <= 1 {
        String::from_str(letter)
    } else {
        let left = (width - 1) / 2;
        let mut text = repeat(" ", left as u128);
        text.append(letter);
        let right = repeat(" ", (width - 1 - left) as u128);
        text.append(right.as_str());
        text
    }
}

/// Whether a sequence of bytes comes before another in the dictionary:
/// at the first place where they differ it has the smaller byte, or it
/// ends there and the other goes on.
pub open spec fn bytes_before(left: Seq<u8>, right: Seq<u8>) -> bool
    decreases left.len(),
{
    if right.len() == 0 {
        false
    } else if left.len() == 0 {
        true
    } else if left[0] != right[0] {
        left[0] < right[0]
    } else {
        bytes_before(left.drop_first(), right.drop_first())
    }
}

/// Whether a text comes before another in the order of strings, which is
/// the dictionary order of their bytes.
pub open spec fn text_before(left: Seq<char>, right: Seq<char>) -> bool {
    bytes_before(encode_utf8(left), encode_utf8(right))
}

/// The list that results when `name` is put into a list in descending
/// order: after every text that does not come before it.
pub open spec fn insert_descending(sorted: Seq<Seq<char>>, name: Seq<char>) -> Seq<Seq<char>>
    decreases sorted.len(),
{
    if sorted.len() == 0 {
        seq![name]
    } else if text_before(sorted.last(), name) {
        insert_descending(sorted.drop_last(), name).push(sorted.last())
    } else {
        sorted.push(name)
    }
}

/// The texts of a list in descending order.
pub open spec fn descending(names: Seq<Seq<char>>) -> Seq<Seq<char>>
    decreases names.len(),
{
    if names.len() == 0 {
        Seq::empty()
    } else {
        insert_descending(descending(names.drop_last()), names.last())
    }
}

/// Whether no text of a list comes before a later one.
pub open spec fn is_descending(names: Seq<Seq<char>>) -> bool {
    forall|i: int, j: int| 0 <= i < j < names.len() ==> !text_before(names[i], names[j])
}

/// Of two sequences of bytes at most one comes before the other.
pub proof fn lemma_before_one_way(left: Seq<u8>, right: Seq<u8>)
    ensures
        !(bytes_before(left, right) && bytes_before(right, left)),
    decreases left.len(),
{
    if left.len() > 0 && right.len() > 0 && left[0] == right[0] {
        lemma_before_one_way(left.drop_first(), right.drop_first());
    }
}

/// Where the first of three sequences of bytes does not come before the
/// second nor the second before the third, the first does not come
/// before the third.
pub proof fn lemma_not_before_chain(first: Seq<u8>, second: Seq<u8>, third: Seq<u8>)
    requires
        !bytes_before(first, second),
        !bytes_before(second, third),
    ensures
        !bytes_before(first, third),
    decreases first.len(),
{
    if first.len() > 0 && second.len() > 0 && third.len() > 0 {
        if first[0] == second[0] && second[0] == third[0] {
            lemma_not_before_chain(first.drop_first(), second.drop_first(), third.drop_first());
        }
    }
}

/// Putting a text into a list in descending order puts it at the place
/// before which no text comes before it and after which every text does.
proof fn lemma_insert_at(sorted: Seq<Seq<char>>, name: Seq<char>, at: int)
    requires
        0 <= at <= sorted.len(),
        forall|k: int| at <= k < sorted.len() ==> text_before(#[trigger] sorted[k], name),
        at > 0 ==> !text_before(sorted[at - 1], name),
    ensures
        insert_descending(sorted, name) == sorted.insert(at, name),
    decreases sorted.len(),
{
    if sorted.len() == 0 {
        assert(sorted.insert(at, name) =~= seq![name]);
    } else if at == sorted.len() {
        assert(sorted.insert(at, name) =~= sorted.push(name));
    } else {
        assert(text_before(sorted[sorted.len() - 1], name));
        let front = sorted.drop_last();
        assert forall|k: int| at <= k < front.len() implies text_before(
            #[trigger] front[k],
            name,
        ) by {
            assert(front[k] == sorted[k]);
        }
        lemma_insert_at(front, name, at);
        assert(sorted.insert(at, name) =~= front.insert(at, name).push(sorted.last()));
    }
}

/// A list stays in descending order, and gains one text only, when a
/// text is put into it in descending order.
pub proof fn lemma_insert_descending(sorted: Seq<Seq<char>>, name: Seq<char>)
    requires
        is_descending(sorted),
    ensures
        is_descending(insert_descending(sorted, name)),
        insert_descending(sorted, name).to_multiset() == sorted.to_multiset().insert(name),
        insert_descending(sorted, name).len() == sorted.len() + 1,
    decreases sorted.len(),
{
    broadcast use vstd::seq_lib::group_to_multiset_ensures;

    let result = insert_descending(sorted, name);
    if sorted.len() == 0 {
        assert(result =~= sorted.push(name));
    } else if text_before(sorted.last(), name) {
        let front = sorted.drop_last();
        let last = sorted.last();
        assert(is_descending(front)) by {
            assert forall|i: int, j: int| 0 <= i < j < front.len() implies !text_before(
                front[i],
                front[j],
            ) by {
                assert(front[i] == sorted[i] && front[j] == sorted[j]);
            }
        }
        lemma_insert_descending(front, name);
        let inner = insert_descending(front, name);
        assert(sorted =~= front.push(last));
        assert forall|i: int, j: int| 0 <= i < j < result.len() implies !text_before(
            result[i],
            result[j],
        ) by {
            if j < inner.len() {
                assert(result[i] == inner[i] && result[j] == inner[j]);
            } else {
                // result[j] is the last text. Every text of `inner` is
                // `name` or a text of `front`.
                assert(result[j] == last);
                assert(result[i] == inner[i]);
                assert(inner.to_multiset().count(inner[i]) > 0);
                if inner[i] == name {
                    lemma_before_one_way(encode_utf8(last), encode_utf8(name));
                } else {
                    assert(front.to_multiset().count(inner[i]) > 0);
                    assert(front.contains(inner[i]));
                    let k = choose|k: int| 0 <= k < front.len() && front[k] == inner[i];
                    assert(!text_before(sorted[k], sorted[sorted.len() - 1]));
                }
            }
        }
    } else {
        assert forall|i: int, j: int| 0 <= i < j < result.len() implies !text_before(
            result[i],
            result[j],
        ) by {
            if j < sorted.len() {
                assert(result[i] == sorted[i] && result[j] == sorted[j]);
            } else if i < sorted.len() - 1 {
                assert(!text_before(sorted[i], sorted[sorted.len() - 1]));
                lemma_not_before_chain(
                    encode_utf8(sorted[i]),
                    encode_utf8(sorted.last()),
                    encode_utf8(name),
                );
            }
        }
    }
}

/// The texts of a list in descending order are the same texts, each as
/// often as in the list, and none of them comes before a later one.
pub proof fn lemma_descending(names: Seq<Seq<char>>)
    ensures
        is_descending(descending(names)),
        descending(names).to_multiset() == names.to_multiset(),
        descending(names).len() == names.len(),
    decreases names.len(),
{
    broadcast use vstd::seq_lib::group_to_multiset_ensures;

    if names.len() > 0 {
        lemma_descending(names.drop_last());
        lemma_insert_descending(descending(names.drop_last()), names.last());
        assert(names =~= names.drop_last().push(names.last()));
    }
}

/// Says whether a text comes before another in the order of strings.
pub fn comes_before(left: &str, right: &str) -> (yes: bool)
    ensures
        yes == text_before(left@, right@),
{
    let a = left.as_bytes();
    let b = right.as_bytes();
    let mut i: usize = 0;
    proof {
        assert(a@.skip(0) =~= a@);
        assert(b@.skip(0) =~= b@);
    }
    while i < a.len() && i < b.len()
        invariant
            i <= a.len(),
            i <= b.len(),
            a@ == encode_utf8(left@),
            b@ == encode_utf8(right@),
            bytes_before(a@, b@) == bytes_before(a@.skip(i as int), b@.skip(i as int)),
        decreases a.len() - i,
    {
        if a[i] != b[i] {
            return a[i] < b[i];
        }
        proof {
            assert(a@.skip(i as int).drop_first() =~= a@.skip(i + 1));
            assert(b@.skip(i as int).drop_first() =~= b@.skip(i + 1));
        }
        i = i + 1;
    }
    i < b.len()
}

/// Puts texts in descending order.
pub fn sort_descending(names: &Vec<String>) -> (sorted: Vec<String>)
    ensures
        texts(sorted@) == descending(texts(names@)),
        is_descending(texts(sorted@)),
        texts(sorted@).to_multiset() == texts(names@).to_multiset(),
        sorted.len() == names.len(),
{
    let mut sorted: Vec<String> = Vec::new();
    let mut i: usize = 0;
    proof {
        assert(texts(sorted@) =~= descending(texts(names@).take(0)));
    }
    while i < names.len()
        invariant
            i <= names.len(),
            texts(sorted@) == descending(texts(names@).take(i as int)),
        decreases names.len() - i,
    {
        let name = names[i].clone();
        let ghost before = sorted@;
        let mut at: usize = sorted.len();
        loop
            invariant
                at <= sorted.len(),
                sorted@ == before,
                forall|k: int|
                    at <= k < sorted.len() ==> text_before(#[trigger] texts(sorted@)[k], name@),
            ensures
                at > 0 ==> !text_before(texts(sorted@)[at - 1], name@),
            decreases at,
        {
            if at == 0 {
                break ;
            }
            if !comes_before(sorted[at - 1].as_str(), name.as_str()) {
                break ;
            }
            at = at - 1;
        }
        sorted.insert(at, name);
        proof {
            lemma_insert_at(texts(before), name@, at as int);
            assert(texts(sorted@) =~= texts(before).insert(at as int, name@));
            assert(texts(names@).take(i + 1).drop_last() =~= texts(names@).take(i as int));
        }
        i = i + 1;
    }
    proof {
        assert(texts(names@).take(i as int) =~= texts(names@));
        lemma_descending(texts(names@));
    }
    sorted
}

} // verus!
