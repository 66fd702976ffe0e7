//! Derivation of the short type name used in routing keys.
//!
//! A namespaced type identifier such as `0x1::coin::CoinStore<AptosCoin>`
//! is reduced to its short form (`CoinStore`): the last `::`-delimited
//! component, truncated at the first `<`, then truncated to the text after
//! the first `.` when one remains. The split runs over the whole
//! identifier, so a `::` inside a generic argument supplies the last
//! component.

use vstd::prelude::*;

verus! {

/// A `::` separator starts at index `i` of `s`.
pub open spec fn sep_at(s: Seq<char>, i: int) -> bool {
    0 <= i && i + 2 <= s.len() && s[i] == ':' && s[i + 1] == ':'
}

/// `s` contains a `::` separator somewhere.
pub open spec fn has_sep(s: Seq<char>) -> bool {
    exists|i: int| sep_at(s, i)
}

/// `s` contains the character `c`.
pub open spec fn contains_char(s: Seq<char>, c: char) -> bool {
    exists|i: int| 0 <= i < s.len() && s[i] == c
}

/// The last piece of `s` when split on `::`, with separators found by a
/// left-to-right, non-overlapping scan (the semantics of splitting on a
/// two-character pattern).
pub open spec fn last_piece(s: Seq<char>) -> Seq<char>
    decreases s.len(),
{
    if s.len() >= 2 && s[0] == ':' && s[1] == ':' {
        last_piece(s.skip(2))
    } else if has_sep(s) {
        last_piece(s.skip(1))
    } else {
        s
    }
}

/// The prefix of `s` before the first occurrence of `c`.
pub open spec fn before_char(s: Seq<char>, c: char) -> Seq<char>
    decreases s.len(),
{
    if s.len() == 0 {
        s
    } else if s[0] == c {
        Seq::<char>::empty()
    } else {
        seq![s[0]] + before_char(s.skip(1), c)
    }
}

/// The suffix of `s` after the first occurrence of `c`.
pub open spec fn after_char(s: Seq<char>, c: char) -> Seq<char>
    decreases s.len(),
{
    if s.len() == 0 {
        s
    } else if s[0] == c {
        s.skip(1)
    } else {
        after_char(s.skip(1), c)
    }
}

/// Drop a generic-parameter suffix: keep only the text before the first `<`.
pub open spec fn strip_generics(s: Seq<char>) -> Seq<char> {
    if contains_char(s, '<') {
        before_char(s, '<')
    } else {
        s
    }
}

/// Drop a residual namespace prefix: keep only the text after the first `.`.
pub open spec fn strip_namespace(s: Seq<char>) -> Seq<char> {
    if contains_char(s, '.') {
        after_char(s, '.')
    } else {
        s
    }
}

/// The short form of a namespaced type identifier.
pub open spec fn short_type(s: Seq<char>) -> Seq<char> {
    strip_namespace(strip_generics(last_piece(s)))
}

proof fn lemma_last_piece_no_sep(s: Seq<char>)
    requires
        forall|i: int| !sep_at(s, i),
    ensures
        last_piece(s) == s,
{
    assert(!sep_at(s, 0));
}

proof fn lemma_last_piece_step(s: Seq<char>, k: int)
    requires
        sep_at(s, k),
        forall|j: int| 0 <= j < k ==> !sep_at(s, j),
    ensures
        last_piece(s) == last_piece(s.skip(k + 2)),
    decreases k,
{
    if k == 0 {
        assert(s.len() >= 2 && s[0] == ':' && s[1] == ':');
    } else {
        assert(!sep_at(s, 0));
        let t = s.skip(1);
        assert(sep_at(t, k - 1));
        assert forall|j: int| 0 <= j < k - 1 implies !sep_at(t, j) by {
            assert(!sep_at(s, j + 1));
        }
        lemma_last_piece_step(t, k - 1);
        assert(t.skip(k + 1) =~= s.skip(k + 2));
        assert(has_sep(s));
    }
}

proof fn lemma_before_char_at(s: Seq<char>, c: char, k: int)
    requires
        0 <= k < s.len(),
        s[k] == c,
        forall|j: int| 0 <= j < k ==> s[j] != c,
    ensures
        before_char(s, c) == s.subrange(0, k),
    decreases k,
{
    if k == 0 {
        assert(s.subrange(0, 0) =~= Seq::<char>::empty());
    } else {
        assert(s[0] != c);
        let t = s.skip(1);
        assert(t[k - 1] == s[k]);
        assert forall|j: int| 0 <= j < k - 1 implies t[j] != c by {
            assert(t[j] == s[j + 1]);
        }
        lemma_before_char_at(t, c, k - 1);
        assert(seq![s[0]] + t.subrange(0, k - 1) =~= s.subrange(0, k));
    }
}

proof fn lemma_after_char_at(s: Seq<char>, c: char, k: int)
    requires
        0 <= k < s.len(),
        s[k] == c,
        forall|j: int| 0 <= j < k ==> s[j] != c,
    ensures
        after_char(s, c) == s.subrange(k + 1, s.len() as int),
    decreases k,
{
    if k == 0 {
        assert(s.skip(1) =~= s.subrange(1, s.len() as int));
    } else {
        assert(s[0] != c);
        let t = s.skip(1);
        assert(t[k - 1] == s[k]);
        assert forall|j: int| 0 <= j < k - 1 implies t[j] != c by {
            assert(t[j] == s[j + 1]);
        }
        lemma_after_char_at(t, c, k - 1);
        assert(t.subrange(k, t.len() as int) =~= s.subrange(k + 1, s.len() as int));
    }
}

/// The short form of a namespaced type identifier, as an executable
/// function: the last `::`-delimited component of `event_type`, truncated
/// at the first `<` when present, then truncated to the text after the
/// first `.` when one remains.
pub fn extract_event_type(event_type: &str) -> (r: String)
    ensures
        r@ == short_type(event_type@),
{
    let ghost s: Seq<char> = event_type@;
    let len = event_type.unicode_len();

    // Find where the last `::`-delimited piece begins.
    let mut start: usize = 0;
    let mut i: usize = 0;
    proof {
        assert(s.skip(0) =~= s);
    }
    while len - i > 1
        invariant
            len == s.len(),
            s == event_type@,
            start <= i <= len,
            last_piece(s) == last_piece(s.skip(start as int)),
            forall|j: int| 0 <= j < i - start ==> !sep_at(s.skip(start as int), j),
        decreases len - i,
    {
        let c1 = event_type.get_char(i);
        let c2 = event_type.get_char(i + 1);
        if c1 == ':' && c2 == ':' {
            proof {
                let ghost t = s.skip(start as int);
                assert(t[i - start] == s[i as int]);
                assert(t[i - start + 1] == s[i + 1]);
                assert(sep_at(t, i - start));
                lemma_last_piece_step(t, i - start);
                assert(t.skip(i - start + 2) =~= s.skip(i + 2));
            }
            i = i + 2;
            start = i;
        } else {
            proof {
                let ghost t = s.skip(start as int);
                assert(t[i - start] == s[i as int]);
                assert(t[i - start + 1] == s[i + 1]);
                assert(!sep_at(t, i - start));
            }
            i = i + 1;
        }
    }
    proof {
        let ghost t = s.skip(start as int);
        assert forall|j: int| !sep_at(t, j) by {
            if 0 <= j && j + 2 <= t.len() {
                assert(j < i - start || j + 2 > t.len()) by {
                    if j >= i - start {
                        assert(start + j + 2 > len);
                    }
                }
            }
        }
        lemma_last_piece_no_sep(t);
    }

    // Truncate the piece at the first `<`, if any.
    let mut end: usize = start;
    while end < len && event_type.get_char(end) != '<'
        invariant
            len == s.len(),
            s == event_type@,
            start <= end <= len,
            forall|j: int| start <= j < end ==> s[j] != '<',
        decreases len - end,
    {
        end = end + 1;
    }
    proof {
        let ghost t = s.skip(start as int);
        if end < len {
            assert(t[end - start] == s[end as int]);
            assert forall|j: int| 0 <= j < end - start implies t[j] != '<' by {
                assert(t[j] == s[start + j]);
            }
            lemma_before_char_at(t, '<', end - start);
            assert(contains_char(t, '<'));
        } else {
            assert forall|j: int| 0 <= j < t.len() implies t[j] != '<' by {
                assert(t[j] == s[start + j]);
            }
            assert(!contains_char(t, '<'));
        }
        assert(t.subrange(0, end - start) =~= s.subrange(start as int, end as int));
        assert(t =~= s.subrange(start as int, len as int));
        assert(strip_generics(t) == s.subrange(start as int, end as int));
    }

    // Keep only the text after the first `.`, if any.
    let mut dot: usize = start;
    while dot < end && event_type.get_char(dot) != '.'
        invariant
            len == s.len(),
            s == event_type@,
            start <= dot <= end <= len,
            forall|j: int| start <= j < dot ==> s[j] != '.',
        decreases end - dot,
    {
        dot = dot + 1;
    }
    let ghost piece = s.subrange(start as int, end as int);
    let res: &str = if dot < end {
        proof {
            assert(piece[dot - start] == s[dot as int]);
            assert forall|j: int| 0 <= j < dot - start implies piece[j] != '.' by {
                assert(piece[j] == s[start + j]);
            }
            lemma_after_char_at(piece, '.', dot - start);
            assert(contains_char(piece, '.'));
            assert(piece.subrange(dot - start + 1, piece.len() as int) =~= s.subrange(
                dot + 1,
                end as int,
            ));
        }
        event_type.substring_char(dot + 1, end)
    } else {
        proof {
            assert forall|j: int| 0 <= j < piece.len() implies piece[j] != '.' by {
                assert(piece[j] == s[start + j]);
            }
            assert(!contains_char(piece, '.'));
        }
        event_type.substring_char(start, end)
    };
    String::from_str(res)
}

} // verus!
