//! Case-folding subsequence match of a query against a candidate.

use crate::text::{
    ascii_lower, ascii_upper, is_upper_case, is_uppercase, lemma_chars_within_bytes, lower_case,
    lowercase_chars, numbers_key, to_ascii_lower, upper_case, uppercase_chars,
};
use std::collections::HashMap;
use vstd::prelude::*;
use vstd::utf8::is_ascii_chars;

verus! {

broadcast use vstd::std_specs::hash::group_hash_axioms;

/// The lower case of every character of `text`, one after the other.
pub open spec fn fold_text(text: Seq<char>) -> Seq<char>
    decreases text.len(),
{
    if text.len() == 0 {
        Seq::empty()
    } else {
        fold_text(text.drop_last()) + lower_case(text.last())
    }
}

/// The upper case of a character, where it is a single character.
pub open spec fn single_uppercase(c: char) -> Option<char> {
    if upper_case(c).len() == 1 {
        Some(upper_case(c)[0])
    } else {
        None
    }
}

/// The upper case of every character of `text`, where it is a single character.
pub open spec fn single_uppercases(text: Seq<char>) -> Seq<Option<char>> {
    text.map_values(|c: char| single_uppercase(c))
}

/// What a candidate has to contain, in order.
pub enum Wanted {
    /// Lower-case ASCII bytes, held against the ASCII lower case of each character.
    Ascii(Seq<u8>),
    /// Lower-case characters, each with the one upper case that stands for it as well, held
    /// against each character and its lower case.
    Unicode(Seq<char>, Seq<Option<char>>),
}

/// How many parts are wanted.
pub open spec fn wanted_len(wanted: Wanted) -> int {
    match wanted {
        Wanted::Ascii(bytes) => bytes.len() as int,
        Wanted::Unicode(chars, _) => chars.len() as int,
    }
}

/// How many wanted characters are found once `folded` has been read from `j` on, where `found`
/// were found before: each character of `folded` that is wanted next counts.
pub open spec fn found_in(wanted: Seq<char>, folded: Seq<char>, j: int, found: int) -> int
    decreases folded.len() - j,
{
    if j >= folded.len() || found >= wanted.len() {
        found
    } else if folded[j] == wanted[found] {
        found_in(wanted, folded, j + 1, found + 1)
    } else {
        found_in(wanted, folded, j + 1, found)
    }
}

/// How many wanted parts are found once `c` has been read, where `found` were found before.
pub open spec fn found_after(wanted: Wanted, c: char, found: int) -> int {
    match wanted {
        Wanted::Ascii(bytes) => if ascii_lower(c as u8) == bytes[found] {
            found + 1
        } else {
            found
        },
        Wanted::Unicode(chars, uppers) => if c == chars[found] || uppers[found] == Some(c) {
            found + 1
        } else if is_upper_case(c) {
            found_in(chars, lower_case(c), 0, found)
        } else {
            found
        },
    }
}

/// Reads `candidate` from index `i` on, where `found` parts were found before, and gives the
/// indices at which something wanted was found; nothing where the candidate ends too early.
pub open spec fn positions_from(
    wanted: Wanted,
    candidate: Seq<char>,
    i: int,
    found: int,
) -> Option<Seq<int>>
    decreases candidate.len() - i,
{
    if found >= wanted_len(wanted) {
        Some(Seq::empty())
    } else if i >= candidate.len() {
        None
    } else {
        let after = found_after(wanted, candidate[i], found);
        match positions_from(wanted, candidate, i + 1, after) {
            Some(rest) => Some(
                if after > found {
                    seq![i] + rest
                } else {
                    rest
                },
            ),
            None => None,
        }
    }
}

/// The ASCII lower case of every character of an ASCII text.
pub open spec fn ascii_fold(text: Seq<char>) -> Seq<u8> {
    text.map_values(|c: char| ascii_lower(c as u8))
}

/// What `query` wants of `candidate`: bytes where both are ASCII, characters otherwise.
pub open spec fn wanted_of(query: Seq<char>, candidate: Seq<char>) -> Wanted {
    if is_ascii_chars(query) && is_ascii_chars(candidate) {
        Wanted::Ascii(ascii_fold(query))
    } else {
        Wanted::Unicode(fold_text(query), single_uppercases(fold_text(query)))
    }
}

/// Where `candidate` matches `query`: the indices of the leftmost characters that hold the
/// folded query in order, or nothing where it does not match.
pub open spec fn match_positions(query: Seq<char>, candidate: Seq<char>) -> Option<Seq<int>> {
    if fold_text(query).len() == 0 {
        Some(Seq::empty())
    } else {
        positions_from(wanted_of(query, candidate), candidate, 0, 0)
    }
}

/// How many positions directly follow the one before them.
pub open spec fn consecutive(positions: Seq<int>) -> int
    decreases positions.len(),
{
    if positions.len() < 2 {
        0
    } else {
        consecutive(positions.drop_last()) + if positions.last() == positions[positions.len() - 2]
            + 1 {
            1int
        } else {
            0
        }
    }
}

/// `number`, or the nearest signed 64-bit number.
pub open spec fn nearest_i64(number: int) -> int {
    if number > i64::MAX {
        i64::MAX as int
    } else if number < i64::MIN {
        i64::MIN as int
    } else {
        number
    }
}

/// The score of a match: 1000 for a match at the start, 40 for each position that directly
/// follows another, less the distance between the first and the last position.
pub open spec fn score_of(positions: Seq<int>) -> int {
    let prefix = if positions.len() > 0 && positions[0] == 0 {
        1000int
    } else {
        0
    };
    let span = if positions.len() > 0 {
        positions.last() - positions[0]
    } else {
        0
    };
    nearest_i64(prefix + 40 * consecutive(positions) - span)
}

/// `result` is the match at `positions` with its score, or no match where there are none.
pub open spec fn is_match(
    result: Option<(i64, Vec<usize>)>,
    positions: Option<Seq<int>>,
) -> bool {
    match result {
        Some((score, found)) => {
            &&& positions is Some
            &&& numbers_key(found@) == positions->0
            &&& score == score_of(positions->0)
        },
        None => positions is None,
    }
}

/// `number` moved to the nearest signed 64-bit number.
pub(crate) fn to_nearest_i64(number: i128) -> (nearest: i64)
    ensures
        nearest == nearest_i64(number as int),
{
    if number > i64::MAX as i128 {
        i64::MAX
    } else if number < i64::MIN as i128 {
        i64::MIN
    } else {
        number as i64
    }
}

/// The score of a match at `positions`.
pub fn match_score(positions: &[usize]) -> (score: i64)
    ensures
        score == score_of(numbers_key(positions@)),
{
    let ghost all = numbers_key(positions@);
    let length = positions.len();
    if length == 0 {
        return 0;
    }
    let mut count: usize = 0;
    let mut i: usize = 1;
    assert(all.take(1).len() == 1);
    while i < length
        invariant
            1 <= i <= length,
            length == positions.len(),
            all == numbers_key(positions@),
            count == consecutive(all.take(i as int)),
            count < i,
        decreases length - i,
    {
        let follows = positions[i] > positions[i - 1] && positions[i] - positions[i - 1] == 1;
        proof {
            let before = all.take(i as int);
            let after = all.take(i + 1);
            assert(after.drop_last() =~= before);
            assert(after.last() == positions@[i as int] as int);
            assert(after[after.len() - 2] == positions@[i - 1] as int);
        }
        if follows {
            count = count + 1;
        }
        i = i + 1;
    }
    assert(all.take(length as int) =~= all);
    let prefix: i128 = if positions[0] == 0 {
        1000
    } else {
        0
    };
    let span: i128 = positions[length - 1] as i128 - positions[0] as i128;
    to_nearest_i64(prefix + count as i128 * 40 - span)
}

/// A query folded once and held against many candidates.
pub struct FoldedQuery {
    unicode: Vec<char>,
    unicode_upper: Vec<Option<char>>,
    ascii: Option<Vec<u8>>,
    fold_cache: HashMap<u32, Vec<char>>,
    text: Ghost<Seq<char>>,
}

/// Every entry holds the lower case of the character under whose number it stands.
pub open spec fn caches_lowercase(cache: Map<u32, Vec<char>>) -> bool {
    forall|c: char|
        #![trigger lower_case(c)]
        cache.contains_key(c as u32) ==> cache[c as u32]@ == lower_case(c)
}

impl FoldedQuery {
    /// The query before folding.
    pub closed spec fn query(self) -> Seq<char> {
        self.text@
    }

    /// The fields hold the folds of the query.
    pub closed spec fn valid(self) -> bool {
        &&& self.unicode@ == fold_text(self.text@)
        &&& self.unicode_upper@ == single_uppercases(self.unicode@)
        &&& self.ascii is Some <==> is_ascii_chars(self.text@)
        &&& self.ascii matches Some(bytes) ==> bytes@ == ascii_fold(self.text@)
        &&& caches_lowercase(self.fold_cache@)
    }

    pub fn new(value: &str) -> (folded: Self)
        ensures
            folded.valid(),
            folded.query() == value@,
    {
        let mut unicode: Vec<char> = Vec::new();
        for c in iter: value.chars()
            invariant
                iter.seq() == value@,
                unicode@ == fold_text(value@.take(iter.index())),
        {
            let mut lower = lowercase_chars(c);
            assert(value@.take(iter.index() + 1).drop_last() =~= value@.take(iter.index()));
            unicode.append(&mut lower);
        }
        assert(value@.take(value@.len() as int) =~= value@);
        let mut unicode_upper: Vec<Option<char>> = Vec::new();
        let mut i: usize = 0;
        while i < unicode.len()
            invariant
                i <= unicode.len(),
                unicode_upper@ == single_uppercases(unicode@.take(i as int)),
            decreases unicode.len() - i,
        {
            let upper = uppercase_chars(unicode[i]);
            let single = if upper.len() == 1 {
                Some(upper[0])
            } else {
                None
            };
            unicode_upper.push(single);
            assert(unicode@.take(i + 1) =~= unicode@.take(i as int).push(unicode@[i as int]));
            assert(unicode_upper@ =~= single_uppercases(unicode@.take(i + 1)));
            i = i + 1;
        }
        assert(unicode@.take(unicode@.len() as int) =~= unicode@);
        let ascii = if value.is_ascii() {
            Some(lower_ascii_bytes(value))
        } else {
            None
        };
        let fold_cache: HashMap<u32, Vec<char>> = HashMap::new();
        FoldedQuery { unicode, unicode_upper, ascii, fold_cache, text: Ghost(value@) }
    }

    pub fn is_empty(&self) -> (empty: bool)
        requires
            self.valid(),
        ensures
            empty == (fold_text(self.query()).len() == 0),
    {
        self.unicode.len() == 0
    }
}

/// The ASCII lower case of every byte of an ASCII text.
fn lower_ascii_bytes(value: &str) -> (bytes: Vec<u8>)
    requires
        is_ascii_chars(value@),
    ensures
        bytes@ == ascii_fold(value@),
{
    broadcast use vstd::string::is_ascii_spec_bytes;

    assert(value.is_ascii());
    let source = value.as_bytes();
    let mut bytes: Vec<u8> = Vec::new();
    let mut i: usize = 0;
    while i < source.len()
        invariant
            i <= source.len(),
            source@ =~= Seq::new(value@.len(), |k: int| value@[k] as u8),
            bytes@ =~= ascii_fold(value@).take(i as int),
        decreases source.len() - i,
    {
        bytes.push(to_ascii_lower(source[i]));
        i = i + 1;
    }
    assert(ascii_fold(value@).take(i as int) =~= ascii_fold(value@));
    bytes
}

/// Positions found before, followed by those found in the rest.
pub open spec fn followed_by(before: Seq<int>, rest: Option<Seq<int>>) -> Option<Seq<int>> {
    match rest {
        Some(positions) => Some(before + positions),
        None => None,
    }
}

/// Where `candidate` matches the query, with the score of that match.
pub fn fuzzy_match(needle: &mut FoldedQuery, candidate: &str) -> (result: Option<(i64, Vec<usize>)>)
    requires
        old(needle).valid(),
    ensures
        final(needle).valid(),
        final(needle).query() == old(needle).query(),
        is_match(result, match_positions(old(needle).query(), candidate@)),
        result is Some <==> match_positions(old(needle).query(), candidate@) is Some,
        result matches Some((score, found)) ==> {
            let positions = match_positions(old(needle).query(), candidate@)->0;
            &&& score == score_of(positions)
            &&& found@.len() == positions.len()
            &&& forall|i: int| 0 <= i < found@.len() ==> #[trigger] found@[i] == positions[i]
        },
{
    broadcast use vstd::string::is_ascii_spec_bytes;

    if needle.is_empty() {
        let positions: Vec<usize> = Vec::new();
        assert(numbers_key(positions@) =~= Seq::<int>::empty());
        return Some((0, positions));
    }
    if let Some(ascii) = &needle.ascii {
        if candidate.is_ascii() {
            let bytes = candidate.as_bytes();
            proof {
                assert(bytes@.map_values(|byte: u8| byte as char) =~= candidate@);
                assert(needle.text@.len() > 0);
                assert(ascii@.len() == needle.text@.len());
            }
            return fuzzy_match_ascii(ascii.as_slice(), bytes);
        }
    }
    fuzzy_match_unicode(
        needle.unicode.as_slice(),
        needle.unicode_upper.as_slice(),
        &mut needle.fold_cache,
        candidate,
    )
}

/// Matches lower-case ASCII bytes against the bytes of an ASCII candidate.
pub fn fuzzy_match_ascii(needle: &[u8], candidate: &[u8]) -> (result: Option<(i64, Vec<usize>)>)
    requires
        needle.len() > 0,
    ensures
        is_match(
            result,
            positions_from(
                Wanted::Ascii(needle@),
                candidate@.map_values(|byte: u8| byte as char),
                0,
                0,
            ),
        ),
{
    let ghost wanted = Wanted::Ascii(needle@);
    let ghost chars = candidate@.map_values(|byte: u8| byte as char);
    let mut positions: Vec<usize> = Vec::new();
    let mut found: usize = 0;
    let mut i: usize = 0;
    assert(followed_by(numbers_key(positions@), positions_from(wanted, chars, 0, 0))
        =~= positions_from(wanted, chars, 0, 0)) by {
        if let Some(rest) = positions_from(wanted, chars, 0, 0) {
            assert(numbers_key(positions@) + rest =~= rest);
        }
    }
    while i < candidate.len()
        invariant
            i <= candidate.len(),
            found < needle.len(),
            wanted == Wanted::Ascii(needle@),
            chars == candidate@.map_values(|byte: u8| byte as char),
            positions_from(wanted, chars, 0, 0) == followed_by(
                numbers_key(positions@),
                positions_from(wanted, chars, i as int, found as int),
            ),
        decreases candidate.len() - i,
    {
        let ghost before = numbers_key(positions@);
        if to_ascii_lower(candidate[i]) == needle[found] {
            positions.push(i);
            proof {
                assert(numbers_key(positions@) =~= before.push(i as int));
                if let Some(rest) = positions_from(wanted, chars, i + 1, found + 1) {
                    assert(before + (seq![i as int] + rest) =~= before.push(i as int) + rest);
                }
            }
            found = found + 1;
            if found == needle.len() {
                assert(numbers_key(positions@) + Seq::<int>::empty() =~= numbers_key(positions@));
                return Some((match_score(positions.as_slice()), positions));
            }
        }
        i = i + 1;
    }
    None
}

/// A character is told from every other one by its number.
proof fn lemma_char_number(c: char)
    ensures
        c as u32 as int == c as int,
{
}

/// Keeps the lower case of `c` in `cache`.
fn remember_lowercase(cache: &mut HashMap<u32, Vec<char>>, c: char)
    requires
        caches_lowercase(old(cache)@),
    ensures
        caches_lowercase(final(cache)@),
        final(cache)@.contains_key(c as u32),
{
    let number = c as u32;
    if !cache.contains_key(&number) {
        cache.insert(number, lowercase_chars(c));
        assert forall|d: char|
            #![trigger lower_case(d)]
            cache@.contains_key(d as u32) implies cache@[d as u32]@ == lower_case(d) by {
            lemma_char_number(c);
            lemma_char_number(d);
        }
    }
}

/// How many wanted characters are found once `folded` has been read.
fn read_folded(needle: &[char], folded: &Vec<char>, found: usize) -> (after: usize)
    requires
        found < needle.len(),
    ensures
        after == found_in(needle@, folded@, 0, found as int),
        found <= after <= needle.len(),
{
    let mut after: usize = found;
    let mut j: usize = 0;
    while j < folded.len() && after < needle.len()
        invariant
            j <= folded.len(),
            found <= after <= needle.len(),
            found_in(needle@, folded@, 0, found as int) == found_in(
                needle@,
                folded@,
                j as int,
                after as int,
            ),
        decreases folded.len() - j,
    {
        if folded[j] == needle[after] {
            after = after + 1;
        }
        j = j + 1;
    }
    after
}

/// Matches lower-case characters against a candidate. `uppercase_of` holds the upper case that
/// stands for each of them as well, and `cache` lower cases looked up before.
pub fn fuzzy_match_unicode(
    needle: &[char],
    uppercase_of: &[Option<char>],
    cache: &mut HashMap<u32, Vec<char>>,
    candidate: &str,
) -> (result: Option<(i64, Vec<usize>)>)
    requires
        needle.len() > 0,
        needle.len() <= uppercase_of.len(),
        caches_lowercase(old(cache)@),
    ensures
        caches_lowercase(final(cache)@),
        is_match(
            result,
            positions_from(Wanted::Unicode(needle@, uppercase_of@), candidate@, 0, 0),
        ),
{
    let ghost wanted = Wanted::Unicode(needle@, uppercase_of@);
    let ghost chars = candidate@;
    let mut positions: Vec<usize> = Vec::new();
    let mut found: usize = 0;
    let mut index: usize = 0;
    proof {
        lemma_chars_within_bytes(chars);
        if let Some(rest) = positions_from(wanted, chars, 0, 0) {
            assert(numbers_key(positions@) + rest =~= rest);
        }
    }
    let bytes = candidate.as_bytes();
    for c in iter: candidate.chars()
        invariant
            iter.seq() == chars,
            chars == candidate@,
            index == iter.index(),
            chars.len() <= bytes.len(),
            found < needle.len(),
            wanted == Wanted::Unicode(needle@, uppercase_of@),
            needle.len() <= uppercase_of.len(),
            caches_lowercase(cache@),
            positions_from(wanted, chars, 0, 0) == followed_by(
                numbers_key(positions@),
                positions_from(wanted, chars, index as int, found as int),
            ),
    {
        let ghost before = numbers_key(positions@);
        let after: usize = if c == needle[found] || uppercase_of[found] == Some(c) {
            found + 1
        } else if is_uppercase(c) {
            remember_lowercase(cache, c);
            assert(cache@[c as u32]@ == lower_case(c));
            match cache.get(&(c as u32)) {
                Some(folded) => read_folded(needle, folded, found),
                None => found,
            }
        } else {
            found
        };
        assert(after == found_after(wanted, c, found as int));
        if after > found {
            positions.push(index);
            proof {
                assert(numbers_key(positions@) =~= before.push(index as int));
                if let Some(rest) = positions_from(wanted, chars, index + 1, after as int) {
                    assert(before + (seq![index as int] + rest) =~= before.push(index as int)
                        + rest);
                }
            }
            found = after;
            if found == needle.len() {
                assert(positions_from(wanted, chars, index + 1, found as int) == Some(
                    Seq::<int>::empty(),
                ));
                assert(numbers_key(positions@) + Seq::<int>::empty() =~= numbers_key(positions@));
                return Some((match_score(positions.as_slice()), positions));
            }
        }
        index = index + 1;
    }
    None
}

/// Indices of `text`, each larger than the one before and none smaller than `from`.
pub open spec fn rising_within(positions: Seq<int>, from: int, length: int) -> bool {
    &&& forall|i: int| 0 <= i < positions.len() ==> from <= #[trigger] positions[i] < length
    &&& forall|i: int, j: int| 0 <= i < j < positions.len() ==> positions[i] < positions[j]
}

proof fn lemma_positions_rise(wanted: Wanted, candidate: Seq<char>, i: int, found: int)
    requires
        0 <= i,
        positions_from(wanted, candidate, i, found) is Some,
    ensures
        rising_within(
            positions_from(wanted, candidate, i, found)->0,
            i,
            candidate.len() as int,
        ),
    decreases candidate.len() - i,
{
    if found < wanted_len(wanted) {
        lemma_positions_rise(
            wanted,
            candidate,
            i + 1,
            found_after(wanted, candidate[i], found),
        );
    }
}

/// The positions of a match are characters of the candidate, in rising order.
pub proof fn law_positions_rise(query: Seq<char>, candidate: Seq<char>)
    requires
        match_positions(query, candidate) is Some,
    ensures
        rising_within(match_positions(query, candidate)->0, 0, candidate.len() as int),
{
    if fold_text(query).len() > 0 {
        lemma_positions_rise(wanted_of(query, candidate), candidate, 0, 0);
    }
}

/// A match stays where it was found when the candidate goes on.
proof fn lemma_longer_candidate(
    wanted: Wanted,
    candidate: Seq<char>,
    more: Seq<char>,
    i: int,
    found: int,
)
    requires
        0 <= i,
        positions_from(wanted, candidate, i, found) is Some,
    ensures
        positions_from(wanted, candidate + more, i, found) == positions_from(
            wanted,
            candidate,
            i,
            found,
        ),
    decreases candidate.len() - i,
{
    if found < wanted_len(wanted) {
        let after = found_after(wanted, candidate[i], found);
        assert((candidate + more)[i] == candidate[i]);
        lemma_longer_candidate(wanted, candidate, more, i + 1, after);
    }
}

/// An ASCII text folds to the ASCII lower case of its characters.
proof fn lemma_ascii_fold(text: Seq<char>)
    requires
        is_ascii_chars(text),
    ensures
        fold_text(text) == ascii_fold(text).map_values(|byte: u8| byte as char),
    decreases text.len(),
{
    if text.len() > 0 {
        let shorter = text.drop_last();
        assert forall|i: int| 0 <= i < shorter.len() implies 0 <= (
        #[trigger] shorter[i]) as nat && (shorter[i] as nat) < 128 by {
            assert(shorter[i] == text[i]);
        }
        lemma_ascii_fold(shorter);
        assert(0 <= text[text.len() - 1] as nat && (text[text.len() - 1] as nat) < 128);
        assert(fold_text(text) =~= ascii_fold(text).map_values(|byte: u8| byte as char));
    } else {
        assert(fold_text(text) =~= ascii_fold(text).map_values(|byte: u8| byte as char));
    }
}

/// Between ASCII texts it does not matter whether bytes or characters are wanted.
proof fn lemma_same_in_ascii(query: Seq<char>, candidate: Seq<char>, i: int, found: int)
    requires
        is_ascii_chars(query),
        is_ascii_chars(candidate),
        0 <= i,
        0 <= found,
    ensures
        positions_from(
            Wanted::Unicode(fold_text(query), single_uppercases(fold_text(query))),
            candidate,
            i,
            found,
        ) == positions_from(Wanted::Ascii(ascii_fold(query)), candidate, i, found),
    decreases candidate.len() - i,
{
    let bytes = Wanted::Ascii(ascii_fold(query));
    let folded = fold_text(query);
    let chars = Wanted::Unicode(folded, single_uppercases(folded));
    lemma_ascii_fold(query);
    if found < query.len() && i < candidate.len() {
        let c = candidate[i];
        let after = found_after(bytes, c, found);
        assert((c as nat) < 128);
        assert((query[found] as nat) < 128);
        assert(folded[found] == ascii_lower(query[found] as u8) as char);
        assert(single_uppercases(folded)[found] == Some(
            ascii_upper(ascii_lower(query[found] as u8)) as char,
        ));
        reveal_with_fuel(found_in, 3);
        assert(found_after(chars, c, found) == after);
        lemma_same_in_ascii(query, candidate, i + 1, after);
    }
}

/// What a query wants of a longer candidate is found in the shorter one where it was found before.
proof fn lemma_same_or_ascii(query: Seq<char>, candidate: Seq<char>, more: Seq<char>)
    requires
        0 < fold_text(query).len(),
    ensures
        positions_from(wanted_of(query, candidate + more), candidate, 0, 0) == positions_from(
            wanted_of(query, candidate),
            candidate,
            0,
            0,
        ),
{
    let longer = candidate + more;
    if is_ascii_chars(query) {
        if is_ascii_chars(longer) {
            assert forall|i: int| 0 <= i < candidate.len() implies '\0' <= #[trigger] candidate[i]
                <= '\u{7f}' by {
                assert(longer[i] == candidate[i]);
            }
            assert(is_ascii_chars(candidate));
        } else if is_ascii_chars(candidate) {
            lemma_same_in_ascii(query, candidate, 0, 0);
        }
    }
}

/// Text appended to a candidate that matches changes neither where it matches nor how well.
pub proof fn law_appended_text_keeps_the_match(
    query: Seq<char>,
    candidate: Seq<char>,
    more: Seq<char>,
)
    requires
        match_positions(query, candidate) is Some,
    ensures
        match_positions(query, candidate + more) == match_positions(query, candidate),
        score_of(match_positions(query, candidate + more)->0) == score_of(
            match_positions(query, candidate)->0,
        ),
{
    let longer = candidate + more;
    if fold_text(query).len() > 0 {
        lemma_same_or_ascii(query, candidate, more);
        lemma_longer_candidate(wanted_of(query, longer), candidate, more, 0, 0);
    }
}

/// What is found next is a wanted part, and no more are found than are wanted.
proof fn lemma_found_in_bounds(wanted: Seq<char>, folded: Seq<char>, j: int, found: int)
    requires
        0 <= found <= wanted.len(),
    ensures
        found <= found_in(wanted, folded, j, found) <= wanted.len(),
    decreases folded.len() - j,
{
    if j < folded.len() && found < wanted.len() {
        if folded[j] == wanted[found] {
            lemma_found_in_bounds(wanted, folded, j + 1, found + 1);
        } else {
            lemma_found_in_bounds(wanted, folded, j + 1, found);
        }
    }
}

proof fn lemma_fewer_positions(
    needle: Seq<char>,
    uppers: Seq<Option<char>>,
    candidate: Seq<char>,
    i: int,
    found: int,
)
    requires
        0 <= i,
        0 <= found <= needle.len(),
        positions_from(Wanted::Unicode(needle, uppers), candidate, i, found) is Some,
    ensures
        positions_from(Wanted::Unicode(needle, uppers), candidate, i, found)->0.len()
            <= needle.len() - found,
        found < needle.len() ==> positions_from(
            Wanted::Unicode(needle, uppers),
            candidate,
            i,
            found,
        )->0.len() > 0,
    decreases candidate.len() - i,
{
    let wanted = Wanted::Unicode(needle, uppers);
    if found < needle.len() {
        lemma_found_in_bounds(needle, lower_case(candidate[i]), 0, found);
        let after = found_after(wanted, candidate[i], found);
        lemma_fewer_positions(needle, uppers, candidate, i + 1, after);
    }
}

/// Whatever upper cases stand for the wanted characters, a match has at least one position, at
/// most one for each of them, and they are characters of the candidate in rising order.
pub proof fn law_unicode_positions(
    needle: Seq<char>,
    uppers: Seq<Option<char>>,
    candidate: Seq<char>,
)
    requires
        needle.len() > 0,
        positions_from(Wanted::Unicode(needle, uppers), candidate, 0, 0) is Some,
    ensures
        ({
            let positions = positions_from(Wanted::Unicode(needle, uppers), candidate, 0, 0)->0;
            &&& 0 < positions.len() <= needle.len()
            &&& rising_within(positions, 0, candidate.len() as int)
        }),
{
    lemma_fewer_positions(needle, uppers, candidate, 0, 0);
    lemma_positions_rise(Wanted::Unicode(needle, uppers), candidate, 0, 0);
}

/// The numbers from `from` up to but not including `to`.
pub open spec fn numbers_between(from: int, to: int) -> Seq<int> {
    Seq::new((to - from) as nat, |k: int| from + k)
}

proof fn lemma_equal_text(needle: Seq<char>, uppers: Seq<Option<char>>, i: int)
    requires
        0 <= i <= needle.len(),
    ensures
        positions_from(Wanted::Unicode(needle, uppers), needle, i, i) == Some(
            numbers_between(i, needle.len() as int),
        ),
    decreases needle.len() - i,
{
    if i < needle.len() {
        lemma_equal_text(needle, uppers, i + 1);
        assert(seq![i] + numbers_between(i + 1, needle.len() as int) =~= numbers_between(
            i,
            needle.len() as int,
        ));
    } else {
        assert(numbers_between(i, needle.len() as int) =~= Seq::<int>::empty());
    }
}

proof fn lemma_all_consecutive(n: int)
    requires
        n >= 1,
    ensures
        consecutive(numbers_between(0, n)) == n - 1,
    decreases n,
{
    if n > 1 {
        lemma_all_consecutive(n - 1);
        assert(numbers_between(0, n).drop_last() =~= numbers_between(0, n - 1));
    }
}

/// A candidate that is what is wanted, character for character, matches at every one of its
/// characters, whatever upper cases stand for them.
pub proof fn law_equal_text_matches_throughout(needle: Seq<char>, uppers: Seq<Option<char>>)
    requires
        needle.len() > 0,
    ensures
        positions_from(Wanted::Unicode(needle, uppers), needle, 0, 0) == Some(
            numbers_between(0, needle.len() as int),
        ),
        score_of(numbers_between(0, needle.len() as int)) == nearest_i64(
            1000 + 39 * (needle.len() - 1),
        ),
{
    lemma_equal_text(needle, uppers, 0);
    lemma_all_consecutive(needle.len() as int);
}

/// A query that folds to nothing matches every candidate, at no position.
pub proof fn law_empty_query_matches(candidate: Seq<char>)
    ensures
        match_positions(Seq::empty(), candidate) == Some(Seq::<int>::empty()),
        score_of(Seq::empty()) == 0,
{
}

/// `positions` show the bytes `wanted` from index `found` on, in order, within `text` from index
/// `from` on.
pub open spec fn shows(
    wanted: Seq<u8>,
    text: Seq<u8>,
    positions: Seq<int>,
    from: int,
    found: int,
) -> bool {
    &&& positions.len() == wanted.len() - found
    &&& rising_within(positions, from, text.len() as int)
    &&& forall|k: int|
        0 <= k < positions.len() ==> text[#[trigger] positions[k]] == wanted[found + k]
}

proof fn lemma_ascii_positions_show(wanted: Seq<u8>, candidate: Seq<char>, i: int, found: int)
    requires
        0 <= i <= candidate.len(),
        0 <= found <= wanted.len(),
        positions_from(Wanted::Ascii(wanted), candidate, i, found) is Some,
    ensures
        shows(
            wanted,
            ascii_fold(candidate),
            positions_from(Wanted::Ascii(wanted), candidate, i, found)->0,
            i,
            found,
        ),
    decreases candidate.len() - i,
{
    let folding = Wanted::Ascii(wanted);
    if found < wanted.len() {
        let after = found_after(folding, candidate[i], found);
        lemma_ascii_positions_show(wanted, candidate, i + 1, after);
        let rest = positions_from(folding, candidate, i + 1, after)->0;
        let whole = positions_from(folding, candidate, i, found)->0;
        if after > found {
            assert(whole =~= seq![i] + rest);
            assert forall|k: int| 0 <= k < whole.len() implies ascii_fold(
                candidate,
            )[#[trigger] whole[k]] == wanted[found + k] by {
                if k > 0 {
                    assert(whole[k] == rest[k - 1]);
                }
            }
        }
    }
}

proof fn lemma_shown_ascii_is_found(
    wanted: Seq<u8>,
    candidate: Seq<char>,
    positions: Seq<int>,
    i: int,
    found: int,
)
    requires
        0 <= i <= candidate.len(),
        0 <= found <= wanted.len(),
        shows(wanted, ascii_fold(candidate), positions, i, found),
    ensures
        positions_from(Wanted::Ascii(wanted), candidate, i, found) is Some,
    decreases candidate.len() - i,
{
    if found < wanted.len() {
        assert(positions[0] >= i);
        let after = found_after(Wanted::Ascii(wanted), candidate[i], found);
        if after > found {
            let rest = positions.drop_first();
            assert forall|k: int| 0 <= k < rest.len() implies ascii_fold(
                candidate,
            )[#[trigger] rest[k]] == wanted[after + k] by {
                assert(rest[k] == positions[k + 1]);
            }
            assert forall|k: int| 0 <= k < rest.len() implies i + 1 <= #[trigger] rest[k]
                < candidate.len() by {
                assert(rest[k] == positions[k + 1]);
                assert(positions[0] < positions[k + 1]);
            }
            lemma_shown_ascii_is_found(wanted, candidate, rest, i + 1, after);
        } else {
            assert(ascii_fold(candidate)[positions[0]] == wanted[found + 0]);
            assert(positions[0] != i);
            assert forall|k: int| 0 <= k < positions.len() implies i + 1 <= #[trigger] positions[k] by {
                if k > 0 {
                    assert(positions[0] < positions[k]);
                }
            }
            lemma_shown_ascii_is_found(wanted, candidate, positions, i + 1, found);
        }
    }
}

/// Between ASCII texts, a candidate matches exactly where the query is a subsequence of it, case
/// apart, and the positions show that subsequence.
pub proof fn law_ascii_match_is_subsequence(query: Seq<char>, candidate: Seq<char>)
    requires
        is_ascii_chars(query),
        is_ascii_chars(candidate),
        fold_text(query).len() > 0,
    ensures
        match_positions(query, candidate) is Some <==> exists|positions: Seq<int>|
            shows(ascii_fold(query), ascii_fold(candidate), positions, 0, 0),
        match_positions(query, candidate) matches Some(positions) ==> shows(
            ascii_fold(query),
            ascii_fold(candidate),
            positions,
            0,
            0,
        ),
{
    let wanted = ascii_fold(query);
    if match_positions(query, candidate) is Some {
        lemma_ascii_positions_show(wanted, candidate, 0, 0);
    }
    if exists|positions: Seq<int>| shows(wanted, ascii_fold(candidate), positions, 0, 0) {
        let positions = choose|positions: Seq<int>|
            shows(wanted, ascii_fold(candidate), positions, 0, 0);
        lemma_shown_ascii_is_found(wanted, candidate, positions, 0, 0);
    }
}

/// The character reads as the wanted one: it is that character, the upper case that stands for it
/// as well, or an upper-case character whose lower case holds it.
pub open spec fn reads_as(c: char, wanted: char, upper: Option<char>) -> bool {
    ||| c == wanted
    ||| upper == Some(c)
    ||| is_upper_case(c) && lower_case(c).contains(wanted)
}

/// `places` show `part` within `text`, in order.
pub open spec fn embeds(part: Seq<char>, text: Seq<char>, places: Seq<int>) -> bool {
    &&& places.len() == part.len()
    &&& rising_within(places, 0, text.len() as int)
    &&& forall|k: int| 0 <= k < places.len() ==> text[#[trigger] places[k]] == part[k]
}

/// The characters of `part` stand in `text`, in order.
pub open spec fn holds_in_order(text: Seq<char>, part: Seq<char>) -> bool {
    exists|places: Seq<int>| embeds(part, text, places)
}

/// Reading `c` finds the wanted characters from `from` up to `to`: one that it is, or as many as
/// its lower case holds in order, and no fewer than it could.
pub open spec fn character_reads(
    needle: Seq<char>,
    uppers: Seq<Option<char>>,
    c: char,
    from: int,
    to: int,
) -> bool {
    if c == needle[from] || uppers[from] == Some(c) {
        to == from + 1
    } else {
        &&& is_upper_case(c)
        &&& from < to <= needle.len()
        &&& holds_in_order(lower_case(c), needle.subrange(from, to))
        &&& to < needle.len() ==> !holds_in_order(lower_case(c), needle.subrange(from, to + 1))
    }
}

/// The characters at `positions` read the wanted ones from `found` on, each those from one of the
/// `starts` up to the next, and no character that is passed over from index `i` on reads as the
/// one that is wanted next.
pub open spec fn reads_in_turn(
    needle: Seq<char>,
    uppers: Seq<Option<char>>,
    candidate: Seq<char>,
    positions: Seq<int>,
    starts: Seq<int>,
    i: int,
    found: int,
) -> bool {
    &&& starts.len() == positions.len() + 1
    &&& starts[0] == found
    &&& starts.last() == needle.len()
    &&& rising_within(positions, i, candidate.len() as int)
    &&& forall|j: int|
        0 <= j < positions.len() ==> character_reads(
            needle,
            uppers,
            candidate[#[trigger] positions[j]],
            starts[j],
            starts[j + 1],
        )
    &&& forall|j: int, k: int|
        #![trigger positions[j], candidate[k]]
        0 <= j < positions.len() && (if j == 0 {
            i
        } else {
            positions[j - 1] + 1
        }) <= k < positions[j] ==> !reads_as(candidate[k], needle[starts[j]], uppers[starts[j]])
}

/// What is found in a lower case is held there in order.
proof fn lemma_found_is_held(wanted: Seq<char>, folded: Seq<char>, j: int, found: int) -> (places:
    Seq<int>)
    requires
        0 <= j,
        0 <= found <= wanted.len(),
    ensures
        found <= found_in(wanted, folded, j, found) <= wanted.len(),
        embeds(
            wanted.subrange(found, found_in(wanted, folded, j, found)),
            folded,
            places,
        ),
        rising_within(places, j, folded.len() as int),
    decreases folded.len() - j,
{
    let after = found_in(wanted, folded, j, found);
    if j >= folded.len() || found >= wanted.len() {
        Seq::empty()
    } else if folded[j] == wanted[found] {
        let rest = lemma_found_is_held(wanted, folded, j + 1, found + 1);
        let places = seq![j] + rest;
        let part = wanted.subrange(found, after);
        let less = wanted.subrange(found + 1, after);
        assert forall|k: int| 0 <= k < places.len() implies folded[#[trigger] places[k]]
            == part[k] by {
            if k > 0 {
                assert(places[k] == rest[k - 1]);
                assert(folded[rest[k - 1]] == less[k - 1]);
            }
        }
        assert forall|a: int, b: int| 0 <= a < b < places.len() implies places[a] < places[b] by {
            if a > 0 {
                assert(rest[a - 1] < rest[b - 1]);
            } else {
                assert(rest[b - 1] >= j + 1);
            }
        }
        assert forall|a: int| 0 <= a < places.len() implies j <= #[trigger] places[a]
            < folded.len() by {
            if a > 0 {
                assert(places[a] == rest[a - 1]);
            }
        }
        places
    } else {
        lemma_found_is_held(wanted, folded, j + 1, found)
    }
}

/// What a lower case holds in order is found there.
proof fn lemma_held_is_found(
    wanted: Seq<char>,
    folded: Seq<char>,
    places: Seq<int>,
    j: int,
    found: int,
    to: int,
)
    requires
        0 <= j,
        0 <= found <= to <= wanted.len(),
        embeds(wanted.subrange(found, to), folded, places),
        rising_within(places, j, folded.len() as int),
    ensures
        found_in(wanted, folded, j, found) >= to,
    decreases folded.len() - j,
{
    let part = wanted.subrange(found, to);
    lemma_found_in_bounds(wanted, folded, j, found);
    if found < to {
        assert(j <= places[0] < folded.len());
        assert(folded[places[0]] == part[0]);
        if folded[j] == wanted[found] {
            let rest = places.drop_first();
            assert forall|k: int| 0 <= k < rest.len() implies folded[#[trigger] rest[k]]
                == wanted.subrange(found + 1, to)[k] by {
                assert(rest[k] == places[k + 1]);
                assert(folded[places[k + 1]] == part[k + 1]);
            }
            assert forall|k: int| 0 <= k < rest.len() implies j + 1 <= #[trigger] rest[k]
                < folded.len() by {
                assert(rest[k] == places[k + 1]);
                assert(places[0] < places[k + 1]);
            }
            lemma_held_is_found(wanted, folded, rest, j + 1, found + 1, to);
        } else {
            assert forall|k: int| 0 <= k < places.len() implies j + 1 <= #[trigger] places[k]
                < folded.len() by {
                if k > 0 {
                    assert(places[0] < places[k]);
                }
            }
            lemma_held_is_found(wanted, folded, places, j + 1, found, to);
        }
    }
}

/// What reading one character does: it finds what it reads, and nothing where it reads as nothing
/// that is wanted.
proof fn lemma_character_reads(
    needle: Seq<char>,
    uppers: Seq<Option<char>>,
    c: char,
    found: int,
)
    requires
        0 <= found < needle.len(),
    ensures
        ({
            let after = found_after(Wanted::Unicode(needle, uppers), c, found);
            &&& found <= after <= needle.len()
            &&& after > found <==> reads_as(c, needle[found], uppers[found])
            &&& after > found ==> character_reads(needle, uppers, c, found, after)
        }),
{
    let folded = lower_case(c);
    let after = found_after(Wanted::Unicode(needle, uppers), c, found);
    if c != needle[found] && uppers[found] != Some(c) && is_upper_case(c) {
        let places = lemma_found_is_held(needle, folded, 0, found);
        if after > found {
            let part = needle.subrange(found, after);
            assert(embeds(part, folded, places));
            assert(folded[places[0]] == part[0]);
            assert(folded.contains(needle[found]));
            let longer = needle.subrange(found, after + 1);
            if after < needle.len() && holds_in_order(folded, longer) {
                let more = choose|more: Seq<int>| embeds(longer, folded, more);
                lemma_held_is_found(needle, folded, more, 0, found, after + 1);
            }
        }
        if folded.contains(needle[found]) {
            let at = choose|at: int| 0 <= at < folded.len() && folded[at] == needle[found];
            assert(embeds(needle.subrange(found, found + 1), folded, seq![at]));
            lemma_held_is_found(needle, folded, seq![at], 0, found, found + 1);
        }
    }
}

proof fn lemma_reads_in_turn(
    needle: Seq<char>,
    uppers: Seq<Option<char>>,
    candidate: Seq<char>,
    i: int,
    found: int,
) -> (starts: Seq<int>)
    requires
        0 <= i,
        0 <= found <= needle.len(),
        positions_from(Wanted::Unicode(needle, uppers), candidate, i, found) is Some,
    ensures
        reads_in_turn(
            needle,
            uppers,
            candidate,
            positions_from(Wanted::Unicode(needle, uppers), candidate, i, found)->0,
            starts,
            i,
            found,
        ),
    decreases candidate.len() - i,
{
    let wanted = Wanted::Unicode(needle, uppers);
    lemma_positions_rise(wanted, candidate, i, found);
    let positions = positions_from(wanted, candidate, i, found)->0;
    if found >= needle.len() {
        seq![found]
    } else {
        let c = candidate[i];
        let after = found_after(wanted, c, found);
        lemma_character_reads(needle, uppers, c, found);
        let rest = positions_from(wanted, candidate, i + 1, after)->0;
        let later = lemma_reads_in_turn(needle, uppers, candidate, i + 1, after);
        if after > found {
            let starts = seq![found] + later;
            assert(positions =~= seq![i] + rest);
            assert forall|j: int| 0 <= j < positions.len() implies character_reads(
                needle,
                uppers,
                candidate[#[trigger] positions[j]],
                starts[j],
                starts[j + 1],
            ) by {
                if j > 0 {
                    assert(positions[j] == rest[j - 1]);
                    assert(starts[j] == later[j - 1]);
                    assert(starts[j + 1] == later[j]);
                }
            }
            assert forall|j: int, k: int|
                #![trigger positions[j], candidate[k]]
                0 <= j < positions.len() && (if j == 0 {
                    i
                } else {
                    positions[j - 1] + 1
                }) <= k < positions[j] implies !reads_as(
                candidate[k],
                needle[starts[j]],
                uppers[starts[j]],
            ) by {
                if j > 0 {
                    assert(positions[j] == rest[j - 1]);
                    assert(starts[j] == later[j - 1]);
                    if j > 1 {
                        assert(positions[j - 1] == rest[j - 2]);
                    }
                    assert(!reads_as(candidate[k], needle[later[j - 1]], uppers[later[j - 1]]));
                }
            }
            starts
        } else {
            assert forall|j: int, k: int|
                #![trigger positions[j], candidate[k]]
                0 <= j < positions.len() && (if j == 0 {
                    i
                } else {
                    positions[j - 1] + 1
                }) <= k < positions[j] implies !reads_as(
                candidate[k],
                needle[later[j]],
                uppers[later[j]],
            ) by {
                if k == i {
                    assert(j == 0) by {
                        if j > 0 {
                            assert(positions[j - 1] >= i + 1);
                        }
                    }
                } else {
                    assert(rest[j] == positions[j]);
                }
            }
            later
        }
    }
}

/// Whatever upper cases stand for the wanted characters, a match reads them in order: every
/// position holds a character that reads as what is wanted next, and is the first that does.
pub proof fn law_unicode_match_reads_in_turn(
    needle: Seq<char>,
    uppers: Seq<Option<char>>,
    candidate: Seq<char>,
)
    requires
        positions_from(Wanted::Unicode(needle, uppers), candidate, 0, 0) is Some,
    ensures
        exists|starts: Seq<int>|
            #![trigger starts.len()]
            reads_in_turn(
                needle,
                uppers,
                candidate,
                positions_from(Wanted::Unicode(needle, uppers), candidate, 0, 0)->0,
                starts,
                0,
                0,
            ),
{
    let starts = lemma_reads_in_turn(needle, uppers, candidate, 0, 0);
    assert(starts.len() >= 0);
}

proof fn lemma_wanted_are_read(
    needle: Seq<char>,
    uppers: Seq<Option<char>>,
    candidate: Seq<char>,
    i: int,
    found: int,
    k: int,
)
    requires
        0 <= i,
        0 <= found <= k < needle.len(),
        positions_from(Wanted::Unicode(needle, uppers), candidate, i, found) is Some,
    ensures
        exists|at: int| i <= at < candidate.len() && reads_as(
            #[trigger] candidate[at],
            needle[k],
            uppers[k],
        ),
    decreases candidate.len() - i,
{
    let c = candidate[i];
    let after = found_after(Wanted::Unicode(needle, uppers), c, found);
    lemma_character_reads(needle, uppers, c, found);
    if k < after {
        if c == needle[found] || uppers[found] == Some(c) {
            assert(reads_as(candidate[i], needle[k], uppers[k]));
        } else {
            let part = needle.subrange(found, after);
            let places = choose|places: Seq<int>| embeds(part, lower_case(c), places);
            assert(lower_case(c)[places[k - found]] == part[k - found]);
            assert(reads_as(candidate[i], needle[k], uppers[k]));
        }
    } else {
        lemma_wanted_are_read(needle, uppers, candidate, i + 1, after, k);
        let at = choose|at: int| i + 1 <= at < candidate.len() && reads_as(
            #[trigger] candidate[at],
            needle[k],
            uppers[k],
        );
        assert(reads_as(candidate[at], needle[k], uppers[k]));
    }
}

proof fn lemma_readable_is_found(
    needle: Seq<char>,
    uppers: Seq<Option<char>>,
    candidate: Seq<char>,
    at: Seq<int>,
    i: int,
    found: int,
)
    requires
        0 <= i,
        0 <= found <= needle.len(),
        at.len() == needle.len() - found,
        rising_within(at, i, candidate.len() as int),
        forall|k: int|
            0 <= k < at.len() ==> reads_as(
                candidate[#[trigger] at[k]],
                needle[found + k],
                uppers[found + k],
            ),
    ensures
        positions_from(Wanted::Unicode(needle, uppers), candidate, i, found) is Some,
    decreases candidate.len() - i,
{
    if found < needle.len() {
        let after = found_after(Wanted::Unicode(needle, uppers), candidate[i], found);
        assert(i <= at[0] < candidate.len());
        lemma_character_reads(needle, uppers, candidate[i], found);
        let rest = at.skip(after - found);
        assert(at[0] == i ==> after > found) by {
            assert(reads_as(candidate[at[0]], needle[found + 0], uppers[found + 0]));
        }
        assert forall|k: int| 0 <= k < rest.len() implies i + 1 <= #[trigger] rest[k]
            < candidate.len() by {
            assert(rest[k] == at[k + after - found]);
            if k + after - found > 0 {
                assert(at[0] < at[k + after - found]);
            }
        }
        assert forall|k: int| 0 <= k < rest.len() implies reads_as(
            candidate[#[trigger] rest[k]],
            needle[after + k],
            uppers[after + k],
        ) by {
            assert(rest[k] == at[k + after - found]);
            assert(reads_as(
                candidate[at[k + after - found]],
                needle[found + (k + after - found)],
                uppers[found + (k + after - found)],
            ));
        }
        lemma_readable_is_found(needle, uppers, candidate, rest, i + 1, after);
    }
}

/// A candidate matches where its characters read as the wanted ones in order, and does not match
/// where some wanted character is read by none of its characters.
pub proof fn law_unicode_match_is_subsequence(
    needle: Seq<char>,
    uppers: Seq<Option<char>>,
    candidate: Seq<char>,
)
    ensures
        (exists|at: Seq<int>|
            at.len() == needle.len() && #[trigger] rising_within(at, 0, candidate.len() as int)
                && (forall|k: int|
                0 <= k < at.len() ==> reads_as(
                    candidate[#[trigger] at[k]],
                    needle[k],
                    uppers[k],
                ))) ==> positions_from(Wanted::Unicode(needle, uppers), candidate, 0, 0) is Some,
        (exists|k: int|
            0 <= k < needle.len() && (forall|at: int|
                0 <= at < candidate.len() ==> !reads_as(
                    #[trigger] candidate[at],
                    #[trigger] needle[k],
                    uppers[k],
                ))) ==> positions_from(Wanted::Unicode(needle, uppers), candidate, 0, 0) is None,
{
    if exists|at: Seq<int>|
        at.len() == needle.len() && #[trigger] rising_within(at, 0, candidate.len() as int) && (
        forall|k: int|
            0 <= k < at.len() ==> reads_as(candidate[#[trigger] at[k]], needle[k], uppers[k])) {
        let at = choose|at: Seq<int>|
            at.len() == needle.len() && #[trigger] rising_within(at, 0, candidate.len() as int) && (
            forall|k: int|
                0 <= k < at.len() ==> reads_as(candidate[#[trigger] at[k]], needle[k], uppers[k]));
        assert forall|k: int| 0 <= k < at.len() implies reads_as(
            candidate[#[trigger] at[k]],
            needle[0 + k],
            uppers[0 + k],
        ) by {}
        lemma_readable_is_found(needle, uppers, candidate, at, 0, 0);
    }
    if positions_from(Wanted::Unicode(needle, uppers), candidate, 0, 0) is Some {
        assert forall|k: int| 0 <= k < needle.len() implies exists|at: int|
            0 <= at < candidate.len() && reads_as(
                #[trigger] candidate[at],
                #[trigger] needle[k],
                uppers[k],
            ) by {
            lemma_wanted_are_read(needle, uppers, candidate, 0, 0, k);
        }
    }
}

/// Folding goes character by character: the fold of a text is the lower cases of its characters,
/// one after the other.
pub proof fn law_fold_goes_by_character(left: Seq<char>, right: Seq<char>, c: char)
    ensures
        fold_text(left + right) == fold_text(left) + fold_text(right),
        fold_text(seq![c]) == lower_case(c),
        fold_text(Seq::empty()) == Seq::<char>::empty(),
    decreases right.len(),
{
    reveal_with_fuel(fold_text, 2);
    assert(seq![c].drop_last() =~= Seq::<char>::empty());
    assert(Seq::<char>::empty() + lower_case(c) =~= lower_case(c));
    if right.len() > 0 {
        law_fold_goes_by_character(left, right.drop_last(), c);
        assert((left + right).drop_last() =~= left + right.drop_last());
        assert(fold_text(left + right) =~= fold_text(left) + fold_text(right));
    } else {
        assert(left + right =~= left);
        assert(fold_text(left) + fold_text(right) =~= fold_text(left));
    }
}

/// A query matches a candidate as its folded characters do, with the upper cases that are single
/// characters, whether both texts are ASCII or not.
pub proof fn law_match_goes_by_character(query: Seq<char>, candidate: Seq<char>)
    ensures
        match_positions(query, candidate) == positions_from(
            Wanted::Unicode(
                fold_text(query),
                Seq::new(
                    fold_text(query).len(),
                    |k: int|
                        if upper_case(fold_text(query)[k]).len() == 1 {
                            Some(upper_case(fold_text(query)[k])[0])
                        } else {
                            None
                        },
                ),
            ),
            candidate,
            0,
            0,
        ),
{
    let folded = fold_text(query);
    let uppers = Seq::new(
        folded.len(),
        |k: int|
            if upper_case(folded[k]).len() == 1 {
                Some(upper_case(folded[k])[0])
            } else {
                None
            },
    );
    assert(uppers =~= single_uppercases(folded));
    if folded.len() > 0 && is_ascii_chars(query) && is_ascii_chars(candidate) {
        lemma_same_in_ascii(query, candidate, 0, 0);
    }
}

/// A match of a query reads its folded characters in order, the first that reads as what is wanted
/// next each time, whether the texts are ASCII or not.
pub proof fn law_match_reads_in_turn(query: Seq<char>, candidate: Seq<char>)
    requires
        match_positions(query, candidate) is Some,
    ensures
        exists|uppers: Seq<Option<char>>, starts: Seq<int>| #[trigger]
            reads_in_turn(
                fold_text(query),
                uppers,
                candidate,
                match_positions(query, candidate)->0,
                starts,
                0,
                0,
            ) && uppers.len() == fold_text(query).len() && (forall|k: int|
                0 <= k < uppers.len() ==> (#[trigger] uppers[k] matches Some(upper)
                    ==> upper_case(fold_text(query)[k]) == seq![upper])),
{
    let folded = fold_text(query);
    let uppers = single_uppercases(folded);
    law_match_goes_by_character(query, candidate);
    assert(uppers =~= Seq::new(
        folded.len(),
        |k: int|
            if upper_case(folded[k]).len() == 1 {
                Some(upper_case(folded[k])[0])
            } else {
                None
            },
    ));
    let starts = lemma_reads_in_turn(folded, uppers, candidate, 0, 0);
    assert forall|k: int| 0 <= k < uppers.len() implies (#[trigger] uppers[k] matches Some(upper)
        ==> upper_case(folded[k]) == seq![upper]) by {
        if let Some(upper) = uppers[k] {
            assert(upper_case(folded[k]) =~= seq![upper]);
        }
    }
    assert(reads_in_turn(
        folded,
        uppers,
        candidate,
        match_positions(query, candidate)->0,
        starts,
        0,
        0,
    ));
}

/// A query none of whose folded characters, for some one of them, is read by a character of the
/// candidate does not match; one whose folded characters stand in the candidate in order does.
pub proof fn law_match_is_subsequence(query: Seq<char>, candidate: Seq<char>)
    ensures
        match_positions(query, candidate) is Some ==> forall|k: int|
            0 <= k < fold_text(query).len() ==> exists|at: int|
                0 <= at < candidate.len() && ({
                    let wanted = #[trigger] fold_text(query)[k];
                    let c = #[trigger] candidate[at];
                    ||| c == wanted
                    ||| upper_case(wanted) == seq![c]
                    ||| is_upper_case(c) && lower_case(c).contains(wanted)
                }),
        holds_in_order(candidate, fold_text(query)) ==> match_positions(query, candidate) is Some,
{
    let folded = fold_text(query);
    let uppers = single_uppercases(folded);
    law_match_goes_by_character(query, candidate);
    assert(uppers =~= Seq::new(
        folded.len(),
        |k: int|
            if upper_case(folded[k]).len() == 1 {
                Some(upper_case(folded[k])[0])
            } else {
                None
            },
    ));
    if match_positions(query, candidate) is Some {
        assert forall|k: int| 0 <= k < folded.len() implies exists|at: int|
            0 <= at < candidate.len() && ({
                let wanted = #[trigger] fold_text(query)[k];
                let c = #[trigger] candidate[at];
                ||| c == wanted
                ||| upper_case(wanted) == seq![c]
                ||| is_upper_case(c) && lower_case(c).contains(wanted)
            }) by {
            lemma_wanted_are_read(folded, uppers, candidate, 0, 0, k);
            let at = choose|at: int| 0 <= at < candidate.len() && reads_as(
                #[trigger] candidate[at],
                folded[k],
                uppers[k],
            );
            if uppers[k] == Some(candidate[at]) {
                assert(upper_case(folded[k]) =~= seq![candidate[at]]);
            }
        }
    }
    if holds_in_order(candidate, folded) {
        let places = choose|places: Seq<int>| embeds(folded, candidate, places);
        assert forall|k: int| 0 <= k < places.len() implies reads_as(
            candidate[#[trigger] places[k]],
            folded[0 + k],
            uppers[0 + k],
        ) by {
            assert(candidate[places[k]] == folded[k]);
        }
        lemma_readable_is_found(folded, uppers, candidate, places, 0, 0);
    }
}

/// Between ASCII texts, every position of a match holds the character of the query, case apart.
pub proof fn law_ascii_positions_hold_the_query(query: Seq<char>, candidate: Seq<char>, k: int)
    requires
        is_ascii_chars(query),
        is_ascii_chars(candidate),
        match_positions(query, candidate) is Some,
        0 <= k < query.len(),
    ensures
        match_positions(query, candidate)->0.len() == query.len(),
        ({
            let c = candidate[match_positions(query, candidate)->0[k]];
            ||| c == query[k]
            ||| 'A' <= c <= 'Z' && query[k] as int == c as int + 32
            ||| 'A' <= query[k] <= 'Z' && c as int == query[k] as int + 32
        }),
{
    lemma_ascii_fold(query);
    law_ascii_match_is_subsequence(query, candidate);
    let positions = match_positions(query, candidate)->0;
    assert(shows(ascii_fold(query), ascii_fold(candidate), positions, 0, 0));
    assert(ascii_fold(candidate)[positions[k]] == ascii_fold(query)[0 + k]);
    let c = candidate[positions[k]];
    assert('\0' <= c <= '\u{7f}');
    assert('\0' <= query[k] <= '\u{7f}');
}

/// The score of one position: a thousand for the start of the candidate, nothing elsewhere.
pub proof fn law_score_of_one_position(position: int)
    requires
        0 <= position,
    ensures
        score_of(Seq::empty()) == 0,
        score_of(seq![position]) == if position == 0 {
            1000int
        } else {
            0
        },
{
}

/// Each further position costs its distance from the one before it, and earns forty where it
/// directly follows that.
pub proof fn law_score_of_further_position(positions: Seq<int>, next: int)
    requires
        positions.len() > 0,
        i64::MIN < score_of(positions) < i64::MAX,
        i64::MIN <= score_of(positions) - (next - positions.last()) <= i64::MAX - 40,
    ensures
        score_of(positions.push(next)) == score_of(positions) - (next - positions.last()) + if next
            == positions.last() + 1 {
            40int
        } else {
            0
        },
{
    let longer = positions.push(next);
    assert(longer.drop_last() =~= positions);
    assert(longer[longer.len() - 2] == positions.last());
}

/// A score that does not fit is the nearest that does.
pub proof fn law_scores_are_capped(number: int)
    ensures
        i64::MIN <= nearest_i64(number) <= i64::MAX,
        i64::MIN <= number <= i64::MAX ==> nearest_i64(number) == number,
        number > i64::MAX ==> nearest_i64(number) == i64::MAX,
        number < i64::MIN ==> nearest_i64(number) == i64::MIN,
{
}

} // verus!
