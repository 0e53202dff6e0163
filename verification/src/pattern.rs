//! Expanding a bounded pattern into every string it matches.
//!
//! A pattern is written in a part of the usual regular-expression syntax:
//! ordinary characters, `.`, escapes of one character, classes in square
//! brackets, groups, alternation with `|`, `?`, counted repetition `{n}` or
//! `{n,m}`, and the flags `i`, `m`, `s`, `U` and `u` after `(?`. What repeats
//! without an upper bound (`*`, `+`, `{n,}`) is refused as unbounded. Anchors
//! and word boundaries, the flag `x`, named groups, a class inside a class or
//! one that starts with `]`, and a closing `]` or `}` that closes nothing
//! are refused as unsupported. The strings themselves are enumerated by the
//! `regen` crate.

use vstd::prelude::*;
use vstd::hash_set::StringHashSet;
use crate::error::GenError;
use crate::text::{chars_of, decode_lossy, lemma_texts_push, texts, utf8_lossy};

verus! {

/// What the scan of a pattern's text finds.
#[derive(Clone, Copy, Debug, PartialEq, Eq, Structural)]
pub enum Shape {
    /// Every repetition has an upper bound and the syntax is supported.
    Bounded,
    /// Some part may repeat without an upper bound.
    Unbounded,
    /// The pattern uses syntax outside the supported part.
    Unsupported,
}

/// Letters that after a backslash stand for a position, not for a character.
pub open spec fn is_assertion_letter(c: char) -> bool {
    c == 'A' || c == 'z' || c == 'b' || c == 'B'
}

/// The decimal digits.
pub open spec fn is_digit(c: char) -> bool {
    '0' <= c && c <= '9'
}

/// The first position at or after `i` that holds no digit.
pub open spec fn digits_end(s: Seq<char>, i: int) -> int
    decreases s.len() - i,
{
    if 0 <= i < s.len() && is_digit(s[i]) {
        digits_end(s, i + 1)
    } else {
        i
    }
}

/// The letters that switch a way of matching on or off after `(?`, and the
/// sign between those switched on and those switched off: all but `x`, which
/// would let a pattern hold white space and comments.
pub open spec fn is_flag(c: char) -> bool {
    c == 'i' || c == 'm' || c == 's' || c == 'U' || c == 'u' || c == '-'
}

/// The first position at or after `i` that holds no flag.
pub open spec fn flags_end(s: Seq<char>, i: int) -> int
    decreases s.len() - i,
{
    if 0 <= i < s.len() && is_flag(s[i]) {
        flags_end(s, i + 1)
    } else {
        i
    }
}

/// The shape of the pattern `s`, read from position `i` on, inside a class
/// or outside one. The first offence found decides.
pub open spec fn shape_from(s: Seq<char>, i: int, in_class: bool) -> Shape
    decreases s.len() - i,
{
    if i < 0 {
        Shape::Unsupported
    } else if i >= s.len() {
        if in_class {
            Shape::Unsupported
        } else {
            Shape::Bounded
        }
    } else if s[i] == '\\' {
        if i + 1 >= s.len() || is_assertion_letter(s[i + 1]) {
            Shape::Unsupported
        } else {
            shape_from(s, i + 2, in_class)
        }
    } else if in_class {
        if s[i] == '[' {
            Shape::Unsupported
        } else {
            shape_from(s, i + 1, s[i] != ']')
        }
    } else if s[i] == '*' || s[i] == '+' {
        Shape::Unbounded
    } else if s[i] == '^' || s[i] == '$' || s[i] == ']' || s[i] == '}' {
        Shape::Unsupported
    } else if s[i] == '(' && i + 1 < s.len() && s[i + 1] == '?' {
        let end = flags_end(s, i + 2);
        if end < i + 2 || end >= s.len() || (s[end] != ')' && s[end] != ':') {
            Shape::Unsupported
        } else {
            shape_from(s, end + 1, false)
        }
    } else if s[i] == '[' {
        let first = if i + 1 < s.len() && s[i + 1] == '^' {
            i + 2
        } else {
            i + 1
        };
        if first >= s.len() || s[first] == ']' {
            Shape::Unsupported
        } else {
            shape_from(s, first, true)
        }
    } else if s[i] == '{' {
        let low_end = digits_end(s, i + 1);
        if low_end <= i + 1 || low_end >= s.len() {
            Shape::Unsupported
        } else if s[low_end] == '}' {
            shape_from(s, low_end + 1, false)
        } else if s[low_end] == ',' {
            let high_end = digits_end(s, low_end + 1);
            if high_end <= low_end || high_end >= s.len() || s[high_end] != '}' {
                Shape::Unsupported
            } else if high_end == low_end + 1 {
                Shape::Unbounded
            } else {
                shape_from(s, high_end + 1, false)
            }
        } else {
            Shape::Unsupported
        }
    } else {
        shape_from(s, i + 1, false)
    }
}

/// The shape of a whole pattern.
pub open spec fn shape_of(s: Seq<char>) -> Shape {
    shape_from(s, 0, false)
}

/// Skips the digits that start at `i`.
fn skip_digits(s: &Vec<char>, i: usize) -> (end: usize)
    requires
        i <= s.len(),
    ensures
        end == digits_end(s@, i as int),
        i <= end <= s.len(),
{
    let mut end = i;
    while end < s.len() && '0' <= s[end] && s[end] <= '9'
        invariant
            i <= end <= s.len(),
            digits_end(s@, i as int) == digits_end(s@, end as int),
        decreases s.len() - end,
    {
        end = end + 1;
    }
    end
}

/// Skips the flags that start at `i`.
fn skip_flags(s: &Vec<char>, i: usize) -> (end: usize)
    requires
        i <= s.len(),
    ensures
        end == flags_end(s@, i as int),
        i <= end <= s.len(),
{
    let mut end = i;
    while end < s.len() && (s[end] == 'i' || s[end] == 'm' || s[end] == 's' || s[end] == 'U'
        || s[end] == 'u' || s[end] == '-')
        invariant
            i <= end <= s.len(),
            flags_end(s@, i as int) == flags_end(s@, end as int),
        decreases s.len() - end,
    {
        end = end + 1;
    }
    end
}

/// Scans a pattern and says whether it is bounded, unbounded or unsupported.
pub fn classify(pattern: &str) -> (shape: Shape)
    ensures
        shape == shape_of(pattern@),
{
    let s = chars_of(pattern);
    let n = s.len();
    let mut i: usize = 0;
    let mut in_class = false;
    while i < n
        invariant
            n == s.len(),
            s@ == pattern@,
            i <= n,
            shape_of(pattern@) == shape_from(s@, i as int, in_class),
        decreases n - i,
    {
        let c = s[i];
        if c == '\\' {
            if i + 1 >= n {
                return Shape::Unsupported;
            }
            let e = s[i + 1];
            if e == 'A' || e == 'z' || e == 'b' || e == 'B' {
                return Shape::Unsupported;
            }
            i = i + 2;
        } else if in_class {
            if c == '[' {
                return Shape::Unsupported;
            }
            in_class = c != ']';
            i = i + 1;
        } else if c == '*' || c == '+' {
            return Shape::Unbounded;
        } else if c == '^' || c == '$' || c == ']' || c == '}' {
            return Shape::Unsupported;
        } else if c == '(' && i + 1 < n && s[i + 1] == '?' {
            let end = skip_flags(&s, i + 2);
            if end >= n || (s[end] != ')' && s[end] != ':') {
                return Shape::Unsupported;
            }
            i = end + 1;
        } else if c == '[' {
            let first = if i + 1 < n && s[i + 1] == '^' {
                i + 2
            } else {
                i + 1
            };
            if first >= n || s[first] == ']' {
                return Shape::Unsupported;
            }
            in_class = true;
            i = first;
        } else if c == '{' {
            let low_end = skip_digits(&s, i + 1);
            if low_end <= i + 1 || low_end >= n {
                return Shape::Unsupported;
            }
            if s[low_end] == '}' {
                i = low_end + 1;
            } else if s[low_end] == ',' {
                let high_end = skip_digits(&s, low_end + 1);
                if high_end >= n || s[high_end] != '}' {
                    return Shape::Unsupported;
                }
                if high_end == low_end + 1 {
                    return Shape::Unbounded;
                }
                i = high_end + 1;
            } else {
                return Shape::Unsupported;
            }
        } else {
            i = i + 1;
        }
    }
    if in_class {
        Shape::Unsupported
    } else {
        Shape::Bounded
    }
}

/// `regen::Generator`: the state of an enumeration, of which the library sees
/// no more than what `pending` says.
#[verifier::external_type_specification]
#[verifier::external_body]
pub struct ExGenerator(regen::Generator);

/// The strings that a generator has yet to produce before it first reports
/// that none is left, in the order in which it will produce them.
pub uninterp spec fn pending(generator: regen::Generator) -> Seq<Seq<u8>>;

/// What `regen` makes of a pattern: `None` where it refuses the pattern, else
/// every string that its generator produces for it, in the generator's order.
pub uninterp spec fn regen_language(pattern: Seq<char>) -> Option<Seq<Seq<u8>>>;

/// `regen::Generator::new`, with a refusal as `None`.
///
/// The crate parses the pattern with `regex-syntax` and builds one iterator
/// for each node of the parsed tree, but none for an anchor or a word
/// boundary; where such a node stands among others the count of iterators
/// does not add up and the call panics. The precondition keeps those
/// patterns away: in a bounded pattern `^` and `$` stand only in a class or
/// behind a backslash, the escapes `A`, `z`, `b` and `B` do not occur, and
/// neither a named group nor the flag `x` can make the parser read the text
/// in another way than the scan did. The contract claims that on such a
/// pattern the call returns, and that the generator, where one is made, has
/// yet to produce what the name says.
#[verifier::external_body]
fn compile(pattern: &str) -> (made: Option<regen::Generator>)
    requires
        shape_of(pattern@) == Shape::Bounded,
    ensures
        made is Some <==> regen_language(pattern@) is Some,
        made matches Some(generator) ==> regen_language(pattern@) == Some(pending(generator)),
{
    regen::Generator::new(pattern).ok()
}

/// `regen::Generator::append_next` appends the next string to `out` and
/// returns how long it is, or returns `None` when no string is left. The
/// length is counted in characters or in bytes, as the pattern has it; the
/// contract leaves it open, and says nothing of `out` where `None` comes back.
pub assume_specification[ regen::Generator::append_next ](
    generator: &mut regen::Generator,
    out: &mut Vec<u8>,
) -> (written: Option<usize>)
    ensures
        written is Some <==> pending(*old(generator)).len() > 0,
        written is Some ==> final(out)@ == old(out)@ + pending(*old(generator))[0],
        written is Some ==> pending(*final(generator)) == pending(*old(generator)).skip(1),
;

/// Each byte string as text.
pub open spec fn decoded(raw: Seq<Seq<u8>>) -> Seq<Seq<char>> {
    Seq::new(raw.len(), |i: int| utf8_lossy(raw[i]))
}

/// `s` without the entries that occur earlier in it.
pub open spec fn distinct(s: Seq<Seq<char>>) -> Seq<Seq<char>>
    decreases s.len(),
{
    if s.len() == 0 {
        s
    } else if s.drop_last().contains(s.last()) {
        distinct(s.drop_last())
    } else {
        distinct(s.drop_last()).push(s.last())
    }
}

/// `distinct` names every entry of the list, and each of them once.
pub proof fn lemma_distinct_names_each_once(s: Seq<Seq<char>>)
    ensures
        distinct(s).no_duplicates(),
        forall|x: Seq<char>| #[trigger] distinct(s).contains(x) <==> s.contains(x),
    decreases s.len(),
{
    if s.len() > 0 {
        let init = s.drop_last();
        let last = s.last();
        let kept = distinct(init);
        lemma_distinct_names_each_once(init);
        assert(kept.contains(last) <==> init.contains(last));
        assert forall|x: Seq<char>| #[trigger] distinct(s).contains(x) <==> s.contains(x) by {
            assert(kept.contains(x) <==> init.contains(x));
            if s.contains(x) {
                let j = choose|j: int| 0 <= j < s.len() && s[j] == x;
                if j < init.len() {
                    assert(init[j] == x);
                }
            }
            if init.contains(x) {
                let j = choose|j: int| 0 <= j < init.len() && init[j] == x;
                assert(s[j] == x);
            }
            assert(s[s.len() - 1] == last);
            assert(s.contains(x) <==> init.contains(x) || x == last);
            if !init.contains(last) {
                assert(distinct(s) == kept.push(last));
                if kept.contains(x) {
                    let k = choose|k: int| 0 <= k < kept.len() && kept[k] == x;
                    assert(kept.push(last)[k] == x);
                }
                assert(kept.push(last)[kept.len() as int] == last);
                if kept.push(last).contains(x) {
                    let k = choose|k: int| 0 <= k < kept.push(last).len() && kept.push(last)[k] == x;
                    if k < kept.len() {
                        assert(kept[k] == x);
                    }
                }
            }
        }
        if !init.contains(last) {
            assert forall|i: int, j: int|
                0 <= i < kept.push(last).len() && 0 <= j < kept.push(last).len() && i
                    != j implies kept.push(last)[i] != kept.push(last)[j] by {
                if i < kept.len() && j < kept.len() {
                    assert(kept[i] != kept[j]);
                } else if i < kept.len() {
                    assert(kept.contains(kept[i]));
                } else {
                    assert(kept.contains(kept[j]));
                }
            }
        }
    }
}

/// What `expand` returns for a pattern, given what `regen` makes of it.
pub open spec fn expansion(pattern: Seq<char>, language: Option<Seq<Seq<u8>>>) -> Result<
    Seq<Seq<char>>,
    GenError,
> {
    match shape_of(pattern) {
        Shape::Unsupported => Err(GenError::InvalidPattern),
        Shape::Unbounded => Err(GenError::UnboundedPattern),
        Shape::Bounded => match language {
            None => Err(GenError::InvalidPattern),
            Some(raw) => Ok(distinct(decoded(raw))),
        },
    }
}

/// `result` is what `denoted` asks for: the same error, or a list with the
/// same texts.
pub open spec fn agrees(result: Result<Vec<String>, GenError>, denoted: Result<
    Seq<Seq<char>>,
    GenError,
>) -> bool {
    match denoted {
        Ok(list) => result is Ok && texts(result->Ok_0@) == list,
        Err(e) => result == Err::<Vec<String>, GenError>(e),
    }
}

/// Runs a generator to its end and collects what it produces, as text.
fn drain(generator: regen::Generator) -> (list: Vec<String>)
    ensures
        texts(list@) == decoded(pending(generator)),
{
    let mut generator = generator;
    let ghost start = pending(generator);
    let mut list: Vec<String> = Vec::new();
    let mut out: Vec<u8> = Vec::new();
    assert(texts(list@) + decoded(start) == decoded(start));
    loop
        invariant_except_break
            out@.len() == 0,
            texts(list@) + decoded(pending(generator)) == decoded(start),
        ensures
            texts(list@) == decoded(start),
        decreases pending(generator).len(),
    {
        let ghost before = pending(generator);
        let ghost done = texts(list@);
        match generator.append_next(&mut out) {
            None => {
                assert(done + decoded(before) == done);
                break ;
            },
            Some(_) => {
                assert(out@ == before[0]);
                let text = decode_lossy(&out);
                proof {
                    lemma_texts_push(list@, text);
                    assert(done.push(text@) + decoded(before.skip(1)) == done + decoded(before));
                }
                list.push(text);
                out.clear();
            },
        }
    }
    list
}

/// The strings of a list without those that occur earlier in it.
pub fn unique(strings: &Vec<String>) -> (kept: Vec<String>)
    ensures
        texts(kept@) == distinct(texts(strings@)),
{
    let ghost all = texts(strings@);
    let mut seen = StringHashSet::new();
    let mut kept: Vec<String> = Vec::new();
    let mut i: usize = 0;
    assert(all.take(0) == Seq::<Seq<char>>::empty());
    assert(all.take(0).to_set() == Set::<Seq<char>>::empty());
    while i < strings.len()
        invariant
            i <= strings.len(),
            all == texts(strings@),
            texts(kept@) == distinct(all.take(i as int)),
            seen@ == all.take(i as int).to_set(),
        decreases strings.len() - i,
    {
        let s = &strings[i];
        let ghost head = all.take(i as int);
        let ghost next = all.take(i + 1);
        proof {
            assert(next.drop_last() == head);
            assert(next.last() == s@);
            assert(head.to_set().insert(s@) == next.to_set()) by {
                assert forall|x: Seq<char>| head.to_set().insert(s@).contains(x) implies next.contains(
                    x,
                ) by {
                    if x == s@ {
                        assert(next[i as int] == x);
                    } else {
                        let j = choose|j: int| 0 <= j < head.len() && head[j] == x;
                        assert(next[j] == x);
                    }
                }
                assert forall|x: Seq<char>| next.contains(x) implies head.to_set().insert(
                    s@,
                ).contains(x) by {
                    let j = choose|j: int| 0 <= j < next.len() && next[j] == x;
                    if j < i {
                        assert(head[j] == x);
                    }
                }
            }
        }
        if !seen.contains(s.as_str()) {
            let copy = s.clone();
            proof {
                lemma_texts_push(kept@, copy);
            }
            seen.insert(s.clone());
            kept.push(copy);
        } else {
            assert(head.to_set().insert(s@) == head.to_set());
        }
        i = i + 1;
    }
    assert(all.take(i as int) == all);
    kept
}

/// Every string that a bounded pattern matches, each once, in the order in
/// which the generator first produces it.
///
/// A pattern that may repeat without bound is refused with
/// `UnboundedPattern`; one outside the supported syntax, or one that the
/// generator does not accept, with `InvalidPattern`.
pub fn expand(expr: &str) -> (result: Result<Vec<String>, GenError>)
    ensures
        agrees(result, expansion(expr@, regen_language(expr@))),
{
    match classify(expr) {
        Shape::Unsupported => Err(GenError::InvalidPattern),
        Shape::Unbounded => Err(GenError::UnboundedPattern),
        Shape::Bounded => match compile(expr) {
            None => Err(GenError::InvalidPattern),
            Some(generator) => {
                let produced = drain(generator);
                Ok(unique(&produced))
            },
        },
    }
}

} // verus!
