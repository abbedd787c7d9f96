//! One step of the interactive loop: the first character of a line picks the
//! action, the trimmed remainder is its argument.

use vstd::prelude::*;
use vstd::string::StrSliceExecFns;
use crate::task::{complete_view, forest_view, node_view, lemma_node_views, NodeView, TodoItem};
use crate::text::push_char;

verus! {

/// The whitespace characters that trimming an argument removes.
pub open spec fn is_ws_char(c: char) -> bool {
    c == ' ' || c == '\t' || c == '\n' || c == '\r' || c == '\u{b}' || c == '\u{c}'
}

/// `s` without its leading whitespace.
pub open spec fn trim_front(s: Seq<char>) -> Seq<char>
    decreases s.len(),
{
    if s.len() > 0 && is_ws_char(s[0]) {
        trim_front(s.drop_first())
    } else {
        s
    }
}

/// `s` without its trailing whitespace.
pub open spec fn trim_back(s: Seq<char>) -> Seq<char>
    decreases s.len(),
{
    if s.len() > 0 && is_ws_char(s.last()) {
        trim_back(s.drop_last())
    } else {
        s
    }
}

/// `s` without leading and trailing whitespace.
pub open spec fn trim_spec(s: Seq<char>) -> Seq<char> {
    trim_back(trim_front(s))
}

/// A decimal digit.
pub open spec fn is_digit(c: char) -> bool {
    '0' <= c && c <= '9'
}

/// The numeric value of a sequence of decimal digits, most significant first.
pub open spec fn digits_val(s: Seq<char>) -> nat
    decreases s.len(),
{
    if s.len() == 0 {
        0
    } else {
        digits_val(s.drop_last()) * 10 + (s.last() as u32 - '0' as u32) as nat
    }
}

/// `s` without one optional leading plus sign.
pub open spec fn strip_plus(s: Seq<char>) -> Seq<char> {
    if s.len() > 0 && s[0] == '+' {
        s.drop_first()
    } else {
        s
    }
}

/// A nonempty run of decimal digits.
pub open spec fn is_digit_str(s: Seq<char>) -> bool {
    s.len() > 0 && forall|i: int| 0 <= i < s.len() ==> is_digit(#[trigger] s[i])
}

/// What parsing `s` as a nonnegative index yields: an optional plus sign and
/// at least one digit, with a value that fits the machine, or nothing.
pub open spec fn parse_index_spec(s: Seq<char>) -> Option<nat> {
    let d = strip_plus(s);
    if is_digit_str(d) && digits_val(d) <= usize::MAX {
        Some(digits_val(d))
    } else {
        None
    }
}

/// What one command line did to the forest, as reported to the user.
#[derive(Debug, PartialEq, Eq)]
pub enum CmdOutcome {
    /// A new root task was appended.
    Added,
    /// The root at this position, subtree and all, was removed.
    Deleted(usize),
    /// The root at this position had its whole subtree marked completed.
    Completed(usize),
    /// A delete named a position at or past the end of the forest.
    DeleteOutOfRange,
    /// A delete argument did not parse as an index.
    DeleteParseError,
    /// A complete named a position at or past the end of the forest.
    CompleteOutOfRange,
    /// A complete argument did not parse as an index.
    CompleteParseError,
    /// The session is over; the caller saves and exits.
    Quit,
    /// The first character names no command.
    Unknown(char),
    /// The line was empty.
    Empty,
}

/// Leading whitespace ends at the first non-whitespace character.
proof fn lemma_trim_front_at(s: Seq<char>, k: int)
    requires
        0 <= k <= s.len(),
        forall|j: int| 0 <= j < k ==> is_ws_char(#[trigger] s[j]),
        k == s.len() || !is_ws_char(s[k]),
    ensures
        trim_front(s) == s.skip(k),
    decreases k,
{
    if k == 0 {
        assert(s.skip(0) =~= s);
    } else {
        lemma_trim_front_at(s.drop_first(), k - 1);
        assert(s.drop_first().skip(k - 1) =~= s.skip(k));
    }
}

/// Trailing whitespace starts right after the last non-whitespace character.
proof fn lemma_trim_back_at(s: Seq<char>, e: int)
    requires
        0 <= e <= s.len(),
        forall|j: int| e <= j < s.len() ==> is_ws_char(#[trigger] s[j]),
        e == 0 || !is_ws_char(s[e - 1]),
    ensures
        trim_back(s) == s.take(e),
    decreases s.len(),
{
    if e == s.len() {
        if s.len() > 0 && is_ws_char(s.last()) {
            assert(!is_ws_char(s[e - 1]));
            assert(false);
        }
        assert(s.take(e) =~= s);
    } else {
        lemma_trim_back_at(s.drop_last(), e);
        assert(s.drop_last().take(e) =~= s.take(e));
    }
}

/// Whether trimming removes this character.
fn is_ws_exec(c: char) -> (b: bool)
    ensures
        b == is_ws_char(c),
{
    c == ' ' || c == '\t' || c == '\n' || c == '\r' || c == '\u{b}' || c == '\u{c}'
}

/// The argument of a command line: everything past the first character, with
/// surrounding whitespace removed.
fn trimmed_arg(line: &str) -> (r: String)
    requires
        line@.len() >= 1,
    ensures
        r@ == trim_spec(line@.drop_first()),
{
    let n = line.unicode_len();
    let ghost rest = line@.drop_first();
    let mut start: usize = 1;
    while start < n && is_ws_exec(line.get_char(start))
        invariant
            1 <= start <= n,
            n == line@.len(),
            rest == line@.drop_first(),
            forall|j: int| 1 <= j < start ==> is_ws_char(#[trigger] line@[j]),
        decreases n - start,
    {
        start += 1;
    }
    let mut end: usize = n;
    while end > start && is_ws_exec(line.get_char(end - 1))
        invariant
            start <= end <= n,
            n == line@.len(),
            forall|j: int| end <= j < n ==> is_ws_char(#[trigger] line@[j]),
        decreases end,
    {
        end -= 1;
    }
    let mut r = String::new();
    let mut i: usize = start;
    while i < end
        invariant
            start <= i <= end <= n,
            n == line@.len(),
            r@ == line@.subrange(start as int, i as int),
        decreases end - i,
    {
        let c = line.get_char(i);
        push_char(&mut r, c);
        proof {
            assert(r@ =~= line@.subrange(start as int, i + 1));
        }
        i += 1;
    }
    proof {
        assert forall|j: int| 0 <= j < start - 1 implies is_ws_char(#[trigger] rest[j]) by {
            assert(rest[j] == line@[j + 1]);
        }
        assert(start - 1 == rest.len() || !is_ws_char(rest[start - 1]));
        lemma_trim_front_at(rest, start - 1);
        assert(trim_front(rest) =~= line@.subrange(start as int, n as int));
        let mid = line@.subrange(start as int, n as int);
        assert forall|j: int| end - start <= j < mid.len() implies is_ws_char(
            #[trigger] mid[j],
        ) by {
            assert(mid[j] == line@[j + start]);
        }
        assert(end - start == 0 || !is_ws_char(mid[end - start - 1]));
        lemma_trim_back_at(mid, end - start);
        assert(mid.take(end - start) =~= line@.subrange(start as int, end as int));
        assert(r@ == trim_spec(rest));
    }
    r
}

/// A longer run of digits never has a smaller value.
proof fn lemma_digits_val_monotone(s: Seq<char>, k: int)
    requires
        0 <= k <= s.len(),
    ensures
        digits_val(s.take(k)) <= digits_val(s),
    decreases s.len() - k,
{
    if k < s.len() {
        lemma_digits_val_monotone(s, k + 1);
        let p = s.take(k + 1);
        assert(p.drop_last() =~= s.take(k));
        assert(digits_val(s.take(k)) <= digits_val(p));
    } else {
        assert(s.take(k) =~= s);
    }
}

/// Parses the argument of a delete or complete command as a position:
/// an optional plus sign, then decimal digits, rejecting values that do not
/// fit the machine, exactly as `parse_index_spec` says.
pub fn parse_index(s: &str) -> (r: Option<usize>)
    ensures
        r matches Some(i) ==> parse_index_spec(s@) == Some(i as nat),
        r is None ==> parse_index_spec(s@) is None,
{
    let n = s.unicode_len();
    let mut i: usize = 0;
    if n > 0 && s.get_char(0) == '+' {
        i = 1;
    }
    let ghost d = strip_plus(s@);
    proof {
        assert(d =~= s@.skip(i as int));
    }
    if i == n {
        return None;
    }
    let mut acc: usize = 0;
    let start = i;
    while i < n
        invariant
            start <= i <= n,
            n == s@.len(),
            d == s@.skip(start as int),
            d.len() == n - start,
            d == strip_plus(s@),
            forall|j: int| 0 <= j < i - start ==> is_digit(#[trigger] d[j]),
            acc as nat == digits_val(d.take(i - start)),
        decreases n - i,
    {
        let c = s.get_char(i);
        let u = c as u32;
        if u < 48 || u > 57 {
            proof {
                assert(d[i - start] == s@[i as int]);
                assert(!is_digit(d[i - start]));
            }
            return None;
        }
        let dv: u32 = u - 48;
        proof {
            assert(d.take(i - start + 1).drop_last() =~= d.take(i - start));
            assert(d.take(i - start + 1).last() == s@[i as int]);
        }
        if acc > (usize::MAX - dv as usize) / 10 {
            proof {
                assert(digits_val(d.take(i - start + 1)) == acc as nat * 10 + dv as nat);
                assert(digits_val(d.take(i - start + 1)) > usize::MAX);
                lemma_digits_val_monotone(d, i - start + 1);
            }
            return None;
        }
        acc = acc * 10 + dv as usize;
        i += 1;
    }
    proof {
        assert(d.take(n - start) =~= d);
        assert(is_digit_str(d));
    }
    Some(acc)
}

/// Applies one command line to the forest. The first character picks the
/// action; the rest of the line, trimmed, is its argument. Reported errors
/// leave the forest unchanged.
pub fn apply_command(forest: &mut Vec<TodoItem>, line: &str) -> (out: CmdOutcome)
    ensures
        ({
            let l = line@;
            let before = forest_view(old(forest)@);
            let after = forest_view(final(forest)@);
            match out {
                CmdOutcome::Empty => l.len() == 0 && after == before,
                CmdOutcome::Added => l.len() > 0 && l[0] == '+' && after == before.push(
                    NodeView {
                        title: trim_spec(l.drop_first()),
                        details: Seq::<char>::empty(),
                        completed: false,
                        children: Seq::<NodeView>::empty(),
                    },
                ),
                CmdOutcome::Deleted(i) => l.len() > 0 && l[0] == 'd' && parse_index_spec(
                    trim_spec(l.drop_first()),
                ) == Some(i as nat) && i < before.len() && after == before.remove(i as int),
                CmdOutcome::DeleteOutOfRange => l.len() > 0 && l[0] == 'd' && (match parse_index_spec(
                    trim_spec(l.drop_first()),
                ) {
                    Some(i) => i >= before.len(),
                    None => false,
                }) && after == before,
                CmdOutcome::DeleteParseError => l.len() > 0 && l[0] == 'd' && parse_index_spec(
                    trim_spec(l.drop_first()),
                ) is None && after == before,
                CmdOutcome::Completed(i) => l.len() > 0 && l[0] == 'c' && parse_index_spec(
                    trim_spec(l.drop_first()),
                ) == Some(i as nat) && i < before.len() && after == before.update(
                    i as int,
                    complete_view(before[i as int]),
                ),
                CmdOutcome::CompleteOutOfRange => l.len() > 0 && l[0] == 'c' && (match parse_index_spec(
                    trim_spec(l.drop_first()),
                ) {
                    Some(i) => i >= before.len(),
                    None => false,
                }) && after == before,
                CmdOutcome::CompleteParseError => l.len() > 0 && l[0] == 'c' && parse_index_spec(
                    trim_spec(l.drop_first()),
                ) is None && after == before,
                CmdOutcome::Quit => l.len() > 0 && l[0] == 'q' && after == before,
                CmdOutcome::Unknown(c) => l.len() > 0 && l[0] == c && c != '+' && c != 'd' && c
                    != 'c' && c != 'q' && after == before,
            }
        }),
{
    let n = line.unicode_len();
    if n == 0 {
        return CmdOutcome::Empty;
    }
    let c0 = line.get_char(0);
    if c0 == '+' {
        let title = trimmed_arg(line);
        let t = TodoItem::new(title);
        let ghost tv = t@;
        forest.push(t);
        proof {
            lemma_node_views(old(forest)@);
            lemma_node_views(forest@);
            let ol = old(forest)@.len() as int;
            let lhs = forest_view(forest@);
            let rhs = forest_view(old(forest)@).push(tv);
            assert(lhs.len() == rhs.len());
            assert forall|j: int| 0 <= j < lhs.len() implies lhs[j] == rhs[j] by {
                assert(lhs[j] == node_view(forest@[j]));
                if j < ol {
                    assert(forest@[j] == old(forest)@[j]);
                    assert(rhs[j] == forest_view(old(forest)@)[j]);
                    assert(forest_view(old(forest)@)[j] == node_view(old(forest)@[j]));
                } else {
                    assert(forest@[j] == t);
                    assert(rhs[j] == tv);
                }
            }
            assert(forest_view(forest@) =~= forest_view(old(forest)@).push(tv));
        }
        CmdOutcome::Added
    } else if c0 == 'd' {
        let arg = trimmed_arg(line);
        match parse_index(arg.as_str()) {
            None => CmdOutcome::DeleteParseError,
            Some(i) => {
                if i < forest.len() {
                    forest.remove(i);
                    proof {
                        lemma_node_views(old(forest)@);
                        lemma_node_views(forest@);
                        assert forall|j: int| 0 <= j < forest@.len() implies forest_view(
                            forest@,
                        )[j] == forest_view(old(forest)@).remove(i as int)[j] by {
                            if j < i {
                                assert(forest@[j] == old(forest)@[j]);
                            } else {
                                assert(forest@[j] == old(forest)@[j + 1]);
                            }
                        }
                        assert(forest_view(forest@) =~= forest_view(old(forest)@).remove(
                            i as int,
                        ));
                    }
                    CmdOutcome::Deleted(i)
                } else {
                    proof {
                        lemma_node_views(forest@);
                    }
                    CmdOutcome::DeleteOutOfRange
                }
            },
        }
    } else if c0 == 'c' {
        let arg = trimmed_arg(line);
        match parse_index(arg.as_str()) {
            None => CmdOutcome::CompleteParseError,
            Some(i) => {
                if i < forest.len() {
                    forest[i].complete();
                    proof {
                        lemma_node_views(old(forest)@);
                        lemma_node_views(forest@);
                        assert forall|j: int| 0 <= j < forest@.len() implies forest_view(
                            forest@,
                        )[j] == forest_view(old(forest)@).update(
                            i as int,
                            complete_view(forest_view(old(forest)@)[i as int]),
                        )[j] by {
                            if j != i {
                                assert(forest@[j] == old(forest)@[j]);
                            }
                        }
                        assert(forest_view(forest@) =~= forest_view(old(forest)@).update(
                            i as int,
                            complete_view(forest_view(old(forest)@)[i as int]),
                        ));
                    }
                    CmdOutcome::Completed(i)
                } else {
                    proof {
                        lemma_node_views(forest@);
                    }
                    CmdOutcome::CompleteOutOfRange
                }
            },
        }
    } else if c0 == 'q' {
        CmdOutcome::Quit
    } else {
        CmdOutcome::Unknown(c0)
    }
}

} // verus!

