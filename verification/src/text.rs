//! Shared strings: conversion, equality, byte order and case folding.

use std::sync::Arc;
use vstd::prelude::*;
use vstd::string::StringExecFns;
use vstd::utf8::encode_utf8;

verus! {

/// The characters of a shared string.
pub open spec fn chars_of(text: Arc<str>) -> Seq<char> {
    (*text)@
}

/// The number of bytes that `text` takes in UTF-8.
pub open spec fn byte_len(text: Seq<char>) -> usize {
    encode_utf8(text).len() as usize
}

/// `text` is a result of converting `value` into a shared string.
pub open spec fn converts_to<T: Into<Arc<str>>>(value: T, text: Arc<str>) -> bool {
    call_ensures(<T as Into<Arc<str>>>::into, (value,), text)
}

/// `text` is the conversion of `value`, both present or both absent.
pub open spec fn option_converts_to<T: Into<Arc<str>>>(
    value: Option<T>,
    text: Option<Arc<str>>,
) -> bool {
    match value {
        Some(inner) => text is Some && converts_to(inner, text->0),
        None => text is None,
    }
}

/// `Arc::<str>::from` on a borrowed string: the shared string has the same characters.
pub assume_specification<'a>[ <Arc<str> as From<&'a str>>::from ](value: &str) -> (text: Arc<str>)
    ensures
        chars_of(text) == value@,
;

/// `Arc::<str>::from` on an owned string: the shared string has the same characters.
pub assume_specification[ <Arc<str> as From<String>>::from ](value: String) -> (text: Arc<str>)
    ensures
        chars_of(text) == value@,
;

/// `Arc::clone`: the new handle refers to the same value.
#[verifier::external_body]
pub(crate) fn share<T: ?Sized>(value: &Arc<T>) -> (handle: Arc<T>)
    ensures
        handle == *value,
{
    Arc::clone(value)
}

/// `Arc::<[usize]>::from` on a slice: the shared slice holds the same numbers.
#[verifier::external_body]
pub(crate) fn share_numbers(numbers: &[usize]) -> (shared: Arc<[usize]>)
    ensures
        (*shared)@ == numbers@,
{
    Arc::from(numbers)
}

/// `Vec::into_boxed_slice`: the box holds the same elements in the same order.
#[verifier::external_body]
pub(crate) fn boxed<T>(elements: Vec<T>) -> (slice: Box<[T]>)
    ensures
        slice@ == elements@,
{
    elements.into_boxed_slice()
}

/// Another handle on an optional shared string.
pub(crate) fn share_option(value: &Option<Arc<str>>) -> (handle: Option<Arc<str>>)
    ensures
        handle == *value,
{
    match value {
        Some(text) => Some(share(text)),
        None => None,
    }
}

/// Converts an optional value into an optional shared string.
pub(crate) fn convert_option<T: Into<Arc<str>>>(value: Option<T>) -> (text: Option<Arc<str>>)
    ensures
        option_converts_to(value, text),
{
    match value {
        Some(inner) => Some(inner.into()),
        None => None,
    }
}

/// How one value stands to another in an order.
#[derive(Clone, Copy, Debug, PartialEq, Eq, Structural)]
pub enum Order {
    Less,
    Same,
    More,
}

/// Dictionary order of two sequences of numbers from index `i` on; a proper prefix comes first.
pub open spec fn lex_from(left: Seq<int>, right: Seq<int>, i: int) -> Order
    decreases left.len() - i,
{
    if i >= left.len() {
        if i >= right.len() {
            Order::Same
        } else {
            Order::Less
        }
    } else if i >= right.len() {
        Order::More
    } else if left[i] < right[i] {
        Order::Less
    } else if left[i] > right[i] {
        Order::More
    } else {
        lex_from(left, right, i + 1)
    }
}

/// Dictionary order of two sequences of numbers.
pub open spec fn lex(left: Seq<int>, right: Seq<int>) -> Order {
    lex_from(left, right, 0)
}

/// The UTF-8 bytes of a text as numbers.
pub open spec fn text_key(text: Seq<char>) -> Seq<int> {
    encode_utf8(text).map_values(|byte: u8| byte as int)
}

/// Dictionary order of two texts by their UTF-8 bytes.
pub open spec fn text_order(left: Seq<char>, right: Seq<char>) -> Order {
    lex(text_key(left), text_key(right))
}

/// The order with both sides exchanged.
pub open spec fn flipped(order: Order) -> Order {
    match order {
        Order::Less => Order::More,
        Order::Same => Order::Same,
        Order::More => Order::Less,
    }
}

/// Compares two texts by their UTF-8 bytes.
pub(crate) fn compare_text(left: &str, right: &str) -> (order: Order)
    ensures
        order == text_order(left@, right@),
{
    let a = left.as_bytes();
    let b = right.as_bytes();
    let ghost x = text_key(left@);
    let ghost y = text_key(right@);
    let mut i: usize = 0;
    while i < a.len() && i < b.len()
        invariant
            a@ == encode_utf8(left@),
            b@ == encode_utf8(right@),
            x == text_key(left@),
            y == text_key(right@),
            i <= a.len(),
            i <= b.len(),
            text_order(left@, right@) == lex_from(x, y, i as int),
        decreases a.len() - i,
    {
        if a[i] < b[i] {
            return Order::Less;
        }
        if a[i] > b[i] {
            return Order::More;
        }
        i = i + 1;
    }
    if i < b.len() {
        Order::Less
    } else if i < a.len() {
        Order::More
    } else {
        Order::Same
    }
}

/// Whether two texts hold the same characters.
pub(crate) fn same_text(left: &str, right: &str) -> (same: bool)
    ensures
        same == (left@ == right@),
{
    proof {
        let x = text_key(left@);
        let y = text_key(right@);
        lemma_lex_reflexive(x, 0);
        if lex(x, y) is Same {
            assert(x.take(0) =~= y.take(0));
            lemma_lex_same(x, y, 0);
            lemma_text_key_injective(left@, right@);
        }
    }
    match compare_text(left, right) {
        Order::Same => true,
        _ => false,
    }
}

/// Compares two sequences of numbers in dictionary order.
pub(crate) fn compare_numbers(left: &Vec<usize>, right: &Vec<usize>) -> (order: Order)
    ensures
        order == lex(numbers_key(left@), numbers_key(right@)),
{
    let ghost x = numbers_key(left@);
    let ghost y = numbers_key(right@);
    let mut i: usize = 0;
    while i < left.len() && i < right.len()
        invariant
            x == numbers_key(left@),
            y == numbers_key(right@),
            i <= left.len(),
            i <= right.len(),
            lex(x, y) == lex_from(x, y, i as int),
        decreases left.len() - i,
    {
        if left[i] < right[i] {
            return Order::Less;
        }
        if left[i] > right[i] {
            return Order::More;
        }
        i = i + 1;
    }
    if i < right.len() {
        Order::Less
    } else if i < left.len() {
        Order::More
    } else {
        Order::Same
    }
}

/// Machine numbers as mathematical ones.
pub open spec fn numbers_key(numbers: Seq<usize>) -> Seq<int> {
    numbers.map_values(|number: usize| number as int)
}

/// Exchanging the two sides flips the order.
pub proof fn lemma_lex_flip(left: Seq<int>, right: Seq<int>, i: int)
    requires
        0 <= i,
    ensures
        lex_from(right, left, i) == flipped(lex_from(left, right, i)),
    decreases left.len() - i,
{
    if i < left.len() && i < right.len() && left[i] == right[i] {
        lemma_lex_flip(left, right, i + 1);
    }
}

/// Sequences that the order does not tell apart are equal.
pub proof fn lemma_lex_same(left: Seq<int>, right: Seq<int>, i: int)
    requires
        0 <= i <= left.len(),
        i <= right.len(),
        left.take(i) == right.take(i),
        lex_from(left, right, i) is Same,
    ensures
        left == right,
    decreases left.len() - i,
{
    if i < left.len() && i < right.len() {
        assert(left.take(i + 1) =~= left.take(i).push(left[i]));
        assert(right.take(i + 1) =~= right.take(i).push(right[i]));
        lemma_lex_same(left, right, i + 1);
    } else {
        assert(left.take(i) =~= left);
        assert(right.take(i) =~= right);
    }
}

/// A sequence is not told apart from itself.
pub proof fn lemma_lex_reflexive(sequence: Seq<int>, i: int)
    requires
        0 <= i,
    ensures
        lex_from(sequence, sequence, i) is Same,
    decreases sequence.len() - i,
{
    if i < sequence.len() {
        lemma_lex_reflexive(sequence, i + 1);
    }
}

/// `whole` is how a first value may stand to a third, where `left` is how it stands to a second
/// and `right` is how the second stands to the third.
pub open spec fn composes(left: Order, right: Order, whole: Order) -> bool {
    &&& left is Same ==> whole == right
    &&& right is Same ==> whole == left
    &&& left == right ==> whole == left
}

/// The dictionary order composes.
pub proof fn lemma_lex_composes(a: Seq<int>, b: Seq<int>, c: Seq<int>, i: int)
    requires
        0 <= i,
    ensures
        composes(lex_from(a, b, i), lex_from(b, c, i), lex_from(a, c, i)),
    decreases a.len() - i,
{
    if i < a.len() && i < b.len() && i < c.len() && a[i] == b[i] && b[i] == c[i] {
        lemma_lex_composes(a, b, c, i + 1);
    }
}

/// Texts with the same UTF-8 bytes are equal.
pub proof fn lemma_text_key_injective(left: Seq<char>, right: Seq<char>)
    requires
        text_key(left) == text_key(right),
    ensures
        left == right,
{
    let a = encode_utf8(left);
    let b = encode_utf8(right);
    assert(a.len() == text_key(left).len());
    assert(b.len() == text_key(right).len());
    assert forall|i: int| 0 <= i < a.len() implies a[i] == b[i] by {
        assert(text_key(left)[i] == a[i] as int);
        assert(text_key(right)[i] == b[i] as int);
    }
    assert(a =~= b);
    vstd::utf8::encode_utf8_decode_utf8(left);
    vstd::utf8::encode_utf8_decode_utf8(right);
}

/// A text has at most as many characters as bytes.
pub proof fn lemma_chars_within_bytes(text: Seq<char>)
    ensures
        text.len() <= encode_utf8(text).len(),
    decreases text.len(),
{
    if text.len() > 0 {
        lemma_chars_within_bytes(text.drop_first());
    }
}

/// The ASCII lower case of a byte: `A` to `Z` become `a` to `z`, all else stays.
pub open spec fn ascii_lower(byte: u8) -> u8 {
    if 65 <= byte <= 90 {
        (byte + 32) as u8
    } else {
        byte
    }
}

/// The ASCII upper case of a byte: `a` to `z` become `A` to `Z`, all else stays.
pub open spec fn ascii_upper(byte: u8) -> u8 {
    if 97 <= byte <= 122 {
        (byte - 32) as u8
    } else {
        byte
    }
}

/// `char::to_lowercase` outside ASCII: the characters that the mapping yields, in order.
pub uninterp spec fn lowercase(c: char) -> Seq<char>;

/// `char::to_uppercase` outside ASCII: the characters that the mapping yields, in order.
pub uninterp spec fn uppercase(c: char) -> Seq<char>;

/// `char::is_uppercase` outside ASCII: whether the character has the `Uppercase` property.
pub uninterp spec fn has_uppercase_property(c: char) -> bool;

/// The lower case of a character.
pub open spec fn lower_case(c: char) -> Seq<char> {
    if (c as u32) < 128 {
        seq![ascii_lower(c as u8) as char]
    } else {
        lowercase(c)
    }
}

/// The upper case of a character.
pub open spec fn upper_case(c: char) -> Seq<char> {
    if (c as u32) < 128 {
        seq![ascii_upper(c as u8) as char]
    } else {
        uppercase(c)
    }
}

/// The character is an upper-case one.
pub open spec fn is_upper_case(c: char) -> bool {
    if (c as u32) < 128 {
        65 <= c as u32 <= 90
    } else {
        has_uppercase_property(c)
    }
}

/// Collects what `char::to_lowercase` yields for `c`. An ASCII character has its ASCII lower case;
/// what any other has is left to the name.
#[verifier::external_body]
pub(crate) fn lowercase_chars(c: char) -> (mapped: Vec<char>)
    ensures
        mapped@ == if (c as u32) < 128 {
            seq![ascii_lower(c as u8) as char]
        } else {
            lowercase(c)
        },
{
    c.to_lowercase().collect()
}

/// Collects what `char::to_uppercase` yields for `c`. An ASCII character has its ASCII upper case;
/// what any other has is left to the name.
#[verifier::external_body]
pub(crate) fn uppercase_chars(c: char) -> (mapped: Vec<char>)
    ensures
        mapped@ == if (c as u32) < 128 {
            seq![ascii_upper(c as u8) as char]
        } else {
            uppercase(c)
        },
{
    c.to_uppercase().collect()
}

/// Calls `char::is_uppercase`. Of the ASCII characters `A` to `Z` are upper-case ones; which of the
/// others are is left to the name.
#[verifier::external_body]
pub(crate) fn is_uppercase(c: char) -> (upper: bool)
    ensures
        upper == if (c as u32) < 128 {
            65 <= c as u32 <= 90
        } else {
            has_uppercase_property(c)
        },
{
    c.is_uppercase()
}

/// The ASCII lower case of a byte.
pub(crate) fn to_ascii_lower(byte: u8) -> (lower: u8)
    ensures
        lower == ascii_lower(byte),
{
    if 65 <= byte && byte <= 90 {
        byte + 32
    } else {
        byte
    }
}

/// The character of a decimal digit.
pub open spec fn digit_char(digit: int) -> char {
    ('0' as int + digit) as char
}

/// A number in decimal, without leading zeros.
pub open spec fn decimal(number: nat) -> Seq<char>
    decreases number,
{
    if number < 10 {
        seq![digit_char(number as int)]
    } else {
        decimal(number / 10).push(digit_char((number % 10) as int))
    }
}

/// A number in decimal, with leading zeros up to `width` characters.
pub open spec fn padded(number: nat, width: int) -> Seq<char> {
    let digits = decimal(number);
    if digits.len() < width {
        Seq::new((width - digits.len()) as nat, |i: int| '0') + digits
    } else {
        digits
    }
}

/// A decimal digit as a text.
fn digit_text(digit: u64) -> (text: &'static str)
    requires
        digit < 10,
    ensures
        text@ == seq![digit_char(digit as int)],
{
    proof {
        reveal_strlit("0");
        reveal_strlit("1");
        reveal_strlit("2");
        reveal_strlit("3");
        reveal_strlit("4");
        reveal_strlit("5");
        reveal_strlit("6");
        reveal_strlit("7");
        reveal_strlit("8");
        reveal_strlit("9");
    }
    let text = match digit {
        0 => "0",
        1 => "1",
        2 => "2",
        3 => "3",
        4 => "4",
        5 => "5",
        6 => "6",
        7 => "7",
        8 => "8",
        _ => "9",
    };
    assert(text@ =~= seq![digit_char(digit as int)]);
    text
}

/// Appends a number in decimal.
pub(crate) fn append_decimal(text: &mut String, number: u64)
    ensures
        final(text)@ == old(text)@ + decimal(number as nat),
    decreases number,
{
    if number >= 10 {
        append_decimal(text, number / 10);
    }
    let ghost before = text@;
    text.append(digit_text(number % 10));
    assert(text@ =~= before.push(digit_char((number % 10) as int)));
    assert(text@ =~= old(text)@ + decimal(number as nat));
}

/// How many characters a number takes in decimal.
fn decimal_width(number: u64) -> (width: u64)
    ensures
        width == decimal(number as nat).len(),
        width <= number + 1,
    decreases number,
{
    if number < 10 {
        1
    } else {
        decimal_width(number / 10) + 1
    }
}

/// Appends a number in decimal, with leading zeros up to `width` characters.
pub(crate) fn append_padded(text: &mut String, number: u64, width: u64)
    ensures
        final(text)@ == old(text)@ + padded(number as nat, width as int),
{
    let digits = decimal_width(number);
    let ghost before = text@;
    let mut i: u64 = digits;
    assert(text@ =~= before + Seq::new(0, |k: int| '0'));
    while i < width
        invariant
            digits <= i,
            i <= width || i == digits,
            text@ == before + Seq::new((i - digits) as nat, |k: int| '0'),
        decreases width - i,
    {
        let ghost here = text@;
        text.append(digit_text(0));
        assert(text@ =~= here.push('0'));
        i = i + 1;
        assert(text@ =~= before + Seq::new((i - digits) as nat, |k: int| '0'));
    }
    append_decimal(text, number);
    assert(text@ =~= before + padded(number as nat, width as int));
}

/// Where one sequence stands before another: at the first place where they differ it has the
/// smaller number, or it ends there.
proof fn lemma_lex_less(left: Seq<int>, right: Seq<int>, i: int)
    requires
        0 <= i <= left.len(),
        i <= right.len(),
        forall|k: int| 0 <= k < i ==> left[k] == right[k],
    ensures
        lex_from(left, right, i) is Less <==> exists|at: int|
            #![trigger left.take(at)]
            0 <= at <= left.len() && at < right.len() && left.take(at) == right.take(at) && (at
                == left.len() || left[at] < right[at]),
    decreases left.len() - i,
{
    if i < left.len() && i < right.len() && left[i] == right[i] {
        lemma_lex_less(left, right, i + 1);
    } else {
        if lex_from(left, right, i) is Less {
            assert(left.take(i) =~= right.take(i));
        }
        assert forall|at: int|
            #![trigger left.take(at)]
            0 <= at <= left.len() && at < right.len() && left.take(at) == right.take(at) && (at
                == left.len() || left[at] < right[at]) implies lex_from(left, right, i) is Less by {
            if at < i {
                assert(left[at] == right[at]);
            } else if at > i {
                assert(left.take(at)[i] == left[i]);
                assert(right.take(at)[i] == right[i]);
            }
        }
    }
}

/// One text stands before another where, at the first byte of their UTF-8 forms in which they
/// differ, it has the smaller one, or where it ends there; they stand alike where they are equal.
pub proof fn law_texts_stand_by_their_bytes(left: Seq<char>, right: Seq<char>)
    ensures
        text_order(left, right) is Less <==> exists|at: int|
            #![trigger encode_utf8(left).take(at)]
            0 <= at <= encode_utf8(left).len() && at < encode_utf8(right).len() && encode_utf8(
                left,
            ).take(at) == encode_utf8(right).take(at) && (at == encode_utf8(left).len()
                || encode_utf8(left)[at] < encode_utf8(right)[at]),
        text_order(left, right) is Same <==> left == right,
        text_order(left, right) is More <==> text_order(right, left) is Less,
{
    let a = encode_utf8(left);
    let b = encode_utf8(right);
    let x = text_key(left);
    let y = text_key(right);
    lemma_lex_less(x, y, 0);
    lemma_lex_flip(x, y, 0);
    lemma_lex_reflexive(x, 0);
    assert forall|at: int| 0 <= at <= a.len() && at <= b.len() implies (#[trigger] a.take(at)
        == b.take(at)) == (x.take(at) == y.take(at)) by {
        if a.take(at) == b.take(at) {
            assert forall|k: int| 0 <= k < at implies x[k] == y[k] by {
                assert(a.take(at)[k] == b.take(at)[k]);
            }
            assert(x.take(at) =~= y.take(at));
        }
        if x.take(at) == y.take(at) {
            assert forall|k: int| 0 <= k < at implies a[k] == b[k] by {
                assert(x.take(at)[k] == y.take(at)[k]);
            }
            assert(a.take(at) =~= b.take(at));
        }
    }
    if text_order(left, right) is Less {
        let at = choose|at: int|
            #![trigger x.take(at)]
            0 <= at <= x.len() && at < y.len() && x.take(at) == y.take(at) && (at == x.len()
                || x[at] < y[at]);
        assert(a.take(at) == b.take(at));
    }
    if exists|at: int|
        #![trigger a.take(at)]
        0 <= at <= a.len() && at < b.len() && a.take(at) == b.take(at) && (at == a.len() || a[at]
            < b[at]) {
        let at = choose|at: int|
            #![trigger a.take(at)]
            0 <= at <= a.len() && at < b.len() && a.take(at) == b.take(at) && (at == a.len()
                || a[at] < b[at]);
        assert(x.take(at) == y.take(at));
    }
    if text_order(left, right) is Same {
        assert(x.take(0) =~= y.take(0));
        lemma_lex_same(x, y, 0);
        lemma_text_key_injective(left, right);
    }
}

/// The letters have their other case, and every other ASCII character is its own.
pub proof fn law_ascii_cases(byte: u8)
    ensures
        65 <= byte <= 90 ==> ascii_lower(byte) == byte + 32 && ascii_upper(byte) == byte
            && ascii_upper(ascii_lower(byte)) == byte,
        97 <= byte <= 122 ==> ascii_upper(byte) == byte - 32 && ascii_lower(byte) == byte
            && ascii_lower(ascii_upper(byte)) == byte,
        byte < 65 || 90 < byte < 97 || 122 < byte ==> ascii_lower(byte) == byte && ascii_upper(byte)
            == byte,
{
}

/// The number that a text of decimal digits stands for.
pub open spec fn read_decimal(text: Seq<char>) -> int
    decreases text.len(),
{
    if text.len() == 0 {
        0
    } else {
        read_decimal(text.drop_last()) * 10 + (text.last() as int - 48)
    }
}

proof fn lemma_decimal_reads_back(number: nat)
    ensures
        read_decimal(decimal(number)) == number,
        decimal(number).len() > 0,
        forall|i: int|
            0 <= i < decimal(number).len() ==> 48 <= (#[trigger] decimal(number)[i]) as int <= 57,
        number > 0 ==> decimal(number)[0] as int != 48,
        number == 0 ==> decimal(number).len() == 1,
    decreases number,
{
    if number < 10 {
        let text = seq![digit_char(number as int)];
        assert(text.drop_last() =~= Seq::<char>::empty());
        assert(read_decimal(text.drop_last()) == 0);
    } else {
        lemma_decimal_reads_back(number / 10);
        let text = decimal(number);
        assert(text.drop_last() =~= decimal(number / 10));
        assert(text[0] == decimal(number / 10)[0]);
    }
}

proof fn lemma_leading_zeros(zeros: Seq<char>, text: Seq<char>)
    requires
        forall|i: int| 0 <= i < zeros.len() ==> #[trigger] zeros[i] == '0',
    ensures
        read_decimal(zeros + text) == read_decimal(text),
    decreases zeros.len() + text.len(),
{
    if text.len() > 0 {
        assert((zeros + text).drop_last() =~= zeros + text.drop_last());
        lemma_leading_zeros(zeros, text.drop_last());
    } else if zeros.len() > 0 {
        assert(zeros + text =~= zeros);
        let fewer = zeros.drop_last();
        assert forall|i: int| 0 <= i < fewer.len() implies #[trigger] fewer[i] == '0' by {
            assert(fewer[i] == zeros[i]);
        }
        lemma_leading_zeros(fewer, text);
        assert(fewer + text =~= fewer);
        assert(zeros[zeros.len() - 1] == '0');
    } else {
        assert(zeros + text =~= text);
    }
}

/// A number in decimal reads back as that number, is made of digits and has no leading zero unless
/// it is zero itself. Padding only puts zeros in front of it, up to the width that is wanted.
pub proof fn law_decimal_reads_back(number: nat, width: int)
    ensures
        read_decimal(decimal(number)) == number,
        forall|i: int|
            0 <= i < decimal(number).len() ==> 48 <= (#[trigger] decimal(number)[i]) as int <= 57,
        number > 0 ==> decimal(number)[0] != '0',
        number == 0 ==> decimal(number).len() == 1,
        read_decimal(padded(number, width)) == number,
        padded(number, width).len() == if decimal(number).len() < width {
            width
        } else {
            decimal(number).len() as int
        },
{
    lemma_decimal_reads_back(number);
    let digits = decimal(number);
    if digits.len() < width {
        lemma_leading_zeros(Seq::new((width - digits.len()) as nat, |i: int| '0'), digits);
    }
}

} // verus!
