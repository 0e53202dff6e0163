//! Splitting a literal field into its candidates.

use vstd::prelude::*;
use vstd::std_specs::iter::IteratorSpec;
use crate::text::texts;

verus! {

broadcast use vstd::string::group_string_axioms;

/// Separates two candidates of a literal field.
pub const SEPARATOR: char = '|';

/// Makes the character after it an ordinary one.
pub const ESCAPE: char = '\\';

/// `head` put in front of the first token of `rest`.
pub open spec fn join_first(head: Seq<char>, rest: Seq<Seq<char>>) -> Seq<Seq<char>> {
    rest.update(0, head + rest[0])
}

/// The candidates that a literal field denotes.
///
/// An unescaped separator ends a token. An escape is dropped and the
/// character after it, whatever it is, joins the current token. An escape
/// with nothing after it is dropped.
pub open spec fn tokens(s: Seq<char>) -> Seq<Seq<char>>
    decreases s.len(),
{
    if s.len() == 0 {
        seq![Seq::<char>::empty()]
    } else if s[0] == SEPARATOR {
        seq![Seq::<char>::empty()] + tokens(s.skip(1))
    } else if s[0] == ESCAPE {
        if s.len() == 1 {
            seq![Seq::<char>::empty()]
        } else {
            join_first(seq![s[1]], tokens(s.skip(2)))
        }
    } else {
        join_first(seq![s[0]], tokens(s.skip(1)))
    }
}

/// A field always has at least one candidate.
pub proof fn lemma_tokens_nonempty(s: Seq<char>)
    ensures
        tokens(s).len() >= 1,
    decreases s.len(),
{
    if s.len() == 0 {
    } else if s[0] == SEPARATOR {
        lemma_tokens_nonempty(s.skip(1));
    } else if s[0] == ESCAPE {
        if s.len() > 1 {
            lemma_tokens_nonempty(s.skip(2));
        }
    } else {
        lemma_tokens_nonempty(s.skip(1));
    }
}

/// A field without separator and escape has one candidate: itself.
pub proof fn lemma_plain_field(s: Seq<char>)
    requires
        forall|i: int| 0 <= i < s.len() ==> s[i] != SEPARATOR && s[i] != ESCAPE,
    ensures
        tokens(s) == seq![s],
    decreases s.len(),
{
    if s.len() == 0 {
        assert(s == Seq::<char>::empty());
    } else {
        let rest = s.skip(1);
        assert forall|i: int| 0 <= i < rest.len() implies rest[i] != SEPARATOR && rest[i]
            != ESCAPE by {
            assert(rest[i] == s[i + 1]);
        }
        lemma_plain_field(rest);
        assert(seq![s[0]] + rest == s);
        assert(join_first(seq![s[0]], seq![rest]) == seq![s]);
    }
}

/// The text ends in an escape that has nothing left to act on.
pub open spec fn dangling(s: Seq<char>) -> bool
    decreases s.len(),
{
    if s.len() == 0 {
        false
    } else if s[0] == ESCAPE {
        if s.len() == 1 {
            true
        } else {
            dangling(s.skip(2))
        }
    } else {
        dangling(s.skip(1))
    }
}

/// The tokens of two texts put together: the last token of the first text
/// and the first token of the second become one.
pub open spec fn glue(left: Seq<Seq<char>>, right: Seq<Seq<char>>) -> Seq<Seq<char>> {
    left.drop_last() + join_first(left.last(), right)
}

/// Tokenizing a text made of two parts, the first of which does not end in a
/// dangling escape, is tokenizing each part and gluing the results.
pub proof fn lemma_tokens_concat(a: Seq<char>, b: Seq<char>)
    requires
        !dangling(a),
    ensures
        tokens(a + b) == glue(tokens(a), tokens(b)),
    decreases a.len(),
{
    lemma_tokens_nonempty(b);
    let right = tokens(b);
    if a.len() == 0 {
        assert(a + b == b);
        assert(Seq::<char>::empty() + right[0] == right[0]);
        assert(glue(tokens(a), right) == right);
    } else if a[0] == SEPARATOR {
        let rest = a.skip(1);
        assert((a + b).skip(1) == rest + b);
        lemma_tokens_concat(rest, b);
        lemma_tokens_nonempty(rest);
        let first = seq![Seq::<char>::empty()];
        assert((first + tokens(rest)).drop_last() == first + tokens(rest).drop_last());
        assert(first + glue(tokens(rest), right) == glue(first + tokens(rest), right));
    } else {
        let used: int = if a[0] == ESCAPE {
            2
        } else {
            1
        };
        let rest = a.skip(used);
        let head = seq![a[used - 1]];
        assert((a + b).skip(used) == rest + b);
        assert((a + b)[used - 1] == a[used - 1]);
        lemma_tokens_concat(rest, b);
        lemma_tokens_nonempty(rest);
        let inner = tokens(rest);
        assert(tokens(a) == join_first(head, inner));
        assert(tokens(a + b) == join_first(head, glue(inner, right)));
        if inner.len() == 1 {
            assert(head + (inner[0] + right[0]) == (head + inner[0]) + right[0]);
        }
        assert(join_first(head, glue(inner, right)) == glue(join_first(head, inner), right));
    }
}

/// An escaped character is an ordinary one. Whatever `c` is, a separator or
/// an escape too, it joins the token in progress and the text goes on after
/// it.
pub proof fn lemma_escape_is_literal(a: Seq<char>, c: char, b: Seq<char>)
    requires
        !dangling(a),
    ensures
        tokens(a + seq![ESCAPE, c] + b) == glue(tokens(a), join_first(seq![c], tokens(b))),
{
    let tail = seq![ESCAPE, c] + b;
    assert(tail.skip(2) == b);
    assert(tokens(tail) == join_first(seq![c], tokens(b)));
    assert(a + seq![ESCAPE, c] + b == a + tail);
    lemma_tokens_concat(a, tail);
}

/// How `tokens` continues after the characters already read have given `cur`
/// as the token in progress, by the first character of `rest`.
proof fn lemma_scan_step(cur: Seq<char>, rest: Seq<char>)
    ensures
        join_first(Seq::<char>::empty(), tokens(rest)) == tokens(rest),
        rest.len() == 0 ==> join_first(cur, tokens(rest)) == seq![cur],
        rest.len() > 0 && rest[0] == SEPARATOR ==> join_first(cur, tokens(rest)) == seq![cur]
            + tokens(rest.skip(1)),
        rest.len() == 1 && rest[0] == ESCAPE ==> join_first(cur, tokens(rest)) == seq![cur],
        rest.len() > 1 && rest[0] == ESCAPE ==> join_first(cur, tokens(rest)) == join_first(
            cur.push(rest[1]),
            tokens(rest.skip(2)),
        ),
        rest.len() > 0 && rest[0] != SEPARATOR && rest[0] != ESCAPE ==> join_first(
            cur,
            tokens(rest),
        ) == join_first(cur.push(rest[0]), tokens(rest.skip(1))),
{
    lemma_tokens_nonempty(rest);
    assert(Seq::<char>::empty() + tokens(rest)[0] == tokens(rest)[0]);
    assert(cur + Seq::<char>::empty() == cur);
    if rest.len() > 0 {
        lemma_tokens_nonempty(rest.skip(1));
        if rest[0] == SEPARATOR {
        } else if rest[0] == ESCAPE {
            if rest.len() > 1 {
                let tail = tokens(rest.skip(2));
                lemma_tokens_nonempty(rest.skip(2));
                assert(cur + (seq![rest[1]] + tail[0]) == cur.push(rest[1]) + tail[0]);
            }
        } else {
            let tail = tokens(rest.skip(1));
            assert(cur + (seq![rest[0]] + tail[0]) == cur.push(rest[0]) + tail[0]);
        }
    }
}

/// Splits a literal field into its candidates.
pub fn tokenize(string: &str) -> (list: Vec<String>)
    ensures
        texts(list@) == tokens(string@),
        list.len() >= 1,
{
    let mut token = String::new();
    let mut list: Vec<String> = Vec::new();
    let mut chars = string.chars();
    proof {
        lemma_scan_step(token@, string@);
        assert(texts(list@) + tokens(string@) == tokens(string@));
    }
    loop
        invariant_except_break
            tokens(string@) == texts(list@) + join_first(token@, tokens(chars.remaining())),
            chars.decrease() is Some,
        ensures
            tokens(string@) == texts(list@).push(token@),
        decreases chars.decrease()->0,
    {
        let ghost rest = chars.remaining();
        let ghost done = texts(list@);
        proof {
            lemma_scan_step(token@, rest);
        }
        match chars.next() {
            None => {
                assert(done + seq![token@] == done.push(token@));
                break ;
            },
            Some(ch) => {
                assert(chars.remaining() == rest.skip(1));
                if ch == SEPARATOR {
                    let ghost ended = token@;
                    list.push(token);
                    token = String::new();
                    proof {
                        lemma_scan_step(token@, rest.skip(1));
                        assert(texts(list@) == done.push(ended));
                        assert(done + (seq![ended] + tokens(rest.skip(1))) == done.push(ended)
                            + tokens(rest.skip(1)));
                    }
                } else if ch == ESCAPE {
                    match chars.next() {
                        None => {
                            assert(done + seq![token@] == done.push(token@));
                            break ;
                        },
                        Some(next) => {
                            assert(chars.remaining() == rest.skip(2));
                            token.push(next);
                        },
                    }
                } else {
                    token.push(ch);
                }
            },
        }
    }
    let ghost done = texts(list@);
    let ghost last = token@;
    list.push(token);
    assert(texts(list@) == done.push(last));
    list
}

} // verus!
