//! Splitting a script into batches on standalone `GO` separators.

use vstd::prelude::*;
use vstd::string::*;
use crate::text::{chars_of, is_whitespace, is_ws};

verus! {

/// The character seen before position `i`, for the comment markers; before the
/// start it is a newline, which is no part of a marker.
pub open spec fn prev_char(s: Seq<char>, i: int) -> char {
    if i <= 0 {
        '\n'
    } else {
        s[i - 1]
    }
}

/// One step of the lexical state `(in_string, in_comment)` on character `c`,
/// which follows `last`.
///
/// A quote toggles the string state unless a block comment is open; outside
/// strings `/*` opens a block comment and `*/` closes it.
pub open spec fn scan_step(state: (bool, bool), last: char, c: char) -> (bool, bool) {
    let in_string = if c == '\'' && !state.1 {
        !state.0
    } else {
        state.0
    };
    let in_comment = if in_string {
        state.1
    } else if last == '/' && c == '*' {
        true
    } else if last == '*' && c == '/' {
        false
    } else {
        state.1
    };
    (in_string, in_comment)
}

/// The lexical state after the first `n` characters of `s`.
pub open spec fn scan(s: Seq<char>, n: nat) -> (bool, bool)
    decreases n,
{
    if n == 0 {
        (false, false)
    } else {
        scan_step(scan(s, (n - 1) as nat), prev_char(s, n - 1), s[n - 1])
    }
}

/// Position `i` holds the `O` of a separator: `GO` preceded by whitespace,
/// followed by whitespace or the end, outside strings and comments.
pub open spec fn is_go_at(s: Seq<char>, i: int) -> bool {
    &&& 2 <= i < s.len()
    &&& s[i - 1] == 'G'
    &&& s[i] == 'O'
    &&& is_ws(s[i - 2])
    &&& (i + 1 == s.len() || is_ws(s[i + 1]))
    &&& !scan(s, (i + 1) as nat).0
    &&& !scan(s, (i + 1) as nat).1
}

/// After the first `n` characters: the batches closed so far, and the text
/// gathered for the open one. A separator closes the open batch without its
/// trailing `G`; the separator itself belongs to no batch.
pub open spec fn split_upto(s: Seq<char>, n: nat) -> (Seq<Seq<char>>, Seq<char>)
    decreases n,
{
    if n == 0 {
        (Seq::empty(), Seq::empty())
    } else {
        let prev = split_upto(s, (n - 1) as nat);
        if is_go_at(s, n - 1) {
            (prev.0.push(prev.1.drop_last()), Seq::empty())
        } else {
            (prev.0, prev.1.push(s[n - 1]))
        }
    }
}

/// The batches of script `s`: the closed ones, then the rest if it is not empty.
pub open spec fn batches_of(s: Seq<char>) -> Seq<Seq<char>> {
    let end = split_upto(s, s.len());
    if end.1.len() > 0 {
        end.0.push(end.1)
    } else {
        end.0
    }
}

/// The texts of a list of strings.
pub open spec fn views_of(v: Seq<String>) -> Seq<Seq<char>> {
    v.map_values(|b: String| b@)
}

proof fn lemma_split_without_go(s: Seq<char>, n: nat)
    requires
        n <= s.len(),
        forall|i: int| !is_go_at(s, i),
    ensures
        split_upto(s, n) == (Seq::<Seq<char>>::empty(), s.take(n as int)),
    decreases n,
{
    if n > 0 {
        lemma_split_without_go(s, (n - 1) as nat);
        assert(s.take(n - 1).push(s[n - 1]) =~= s.take(n as int));
    }
}

/// A script without a standalone `GO` separator forms a single batch, equal
/// to the whole script, whenever it is not empty.
pub proof fn lemma_no_go_one_batch(s: Seq<char>)
    requires
        s.len() > 0,
        forall|i: int| !is_go_at(s, i),
    ensures
        batches_of(s) == seq![s],
{
    lemma_split_without_go(s, s.len());
    assert(s.take(s.len() as int) =~= s);
    assert(batches_of(s) =~= seq![s]);
}

pub struct BatchParser {
    pub batches: Vec<String>,
}

impl BatchParser {
    /// Splits `sql` into its batches, in order.
    pub fn parse(sql: &str) -> (r: Self)
        ensures
            views_of(r.batches@) == batches_of(sql@),
            forall|i: int| 0 <= i < r.batches@.len() ==> r.batches@[i]@.len() > 0,
            sql@.len() > 0 ==> r.batches@.len() >= 1,
    {
        let chars = chars_of(sql);
        let n = chars.len();
        let mut batches: Vec<String> = Vec::new();
        let mut start: usize = 0;
        let mut in_string = false;
        let mut in_comment = false;
        let mut i: usize = 0;
        while i < n
            invariant
                chars@ == sql@,
                n == chars.len(),
                start <= i <= n,
                (in_string, in_comment) == scan(sql@, i as nat),
                split_upto(sql@, i as nat).0 == views_of(batches@),
                split_upto(sql@, i as nat).1 == sql@.subrange(start as int, i as int),
                forall|k: int| 0 <= k < batches@.len() ==> batches@[k]@.len() > 0,
                batches@.len() == 0 ==> start == 0,
            decreases n - i,
        {
            let c = chars[i];
            let last = if i == 0 {
                '\n'
            } else {
                chars[i - 1]
            };
            if c == '\'' && !in_comment {
                in_string = !in_string;
            }
            if !in_string {
                if last == '/' && c == '*' {
                    in_comment = true;
                } else if last == '*' && c == '/' {
                    in_comment = false;
                }
            }
            let go = c == 'O' && i >= 2 && chars[i - 1] == 'G' && is_whitespace(chars[i - 2])
                && (i + 1 == n || is_whitespace(chars[i + 1])) && !in_string && !in_comment;
            proof {
                assert(go == is_go_at(sql@, i as int));
            }
            if go {
                let ghost before = batches@;
                proof {
                    assert(!is_go_at(sql@, i - 1));
                    assert(split_upto(sql@, i as nat).1.len() >= 1);
                    assert(sql@.subrange(start as int, i as int).drop_last() =~= sql@.subrange(
                        start as int,
                        i - 1,
                    ));
                }
                proof {
                    assert(split_upto(sql@, (i - 1) as nat).1.len() >= 1) by {
                        assert(!is_go_at(sql@, i - 2));
                    }
                }
                let piece = sql.substring_char(start, i - 1);
                batches.push(String::from_str(piece));
                proof {
                    assert(views_of(batches@) =~= views_of(before).push(piece@));
                    assert(views_of(batches@) =~= split_upto(sql@, (i + 1) as nat).0);
                }
                start = i + 1;
            } else {
                proof {
                    assert(views_of(batches@) =~= split_upto(sql@, (i + 1) as nat).0);
                }
            }
            i += 1;
            assert(split_upto(sql@, i as nat).1 =~= sql@.subrange(start as int, i as int));
        }
        if start < n {
            let rest = sql.substring_char(start, n);
            batches.push(String::from_str(rest));
            assert(views_of(batches@) =~= batches_of(sql@));
        } else {
            assert(views_of(batches@) =~= batches_of(sql@));
        }
        BatchParser { batches }
    }
}

} // verus!
