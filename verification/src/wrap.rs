//! Breaking text into lines of bounded length: prose at word boundaries,
//! code at any character.
use vstd::prelude::*;

use crate::parse::strings_view;
use crate::text::{
    all_ws, append_all, chars_of, deep_chars, is_blank, is_ws, join, lemma_trim_empty_iff_all_ws,
    split_words, split_words_exec, string_of, trim, words_from,
};

verus! {

broadcast use vstd::string::group_string_axioms;

/// `a + " " + b`.
pub open spec fn spaced(a: Seq<char>, b: Seq<char>) -> Seq<char> {
    a + seq![' '] + b
}

/// Greedy filling of lines with the words: the finished lines and the line
/// being filled. A word joins the current line where the line, a space and
/// the word take at most `max` characters; otherwise the current line (if
/// any) is finished and the word starts the next one.
pub open spec fn fill_words(words: Seq<Seq<char>>, max: nat) -> (Seq<Seq<char>>, Seq<char>)
    decreases words.len(),
{
    if words.len() == 0 {
        (Seq::empty(), Seq::empty())
    } else {
        let (done, cur) = fill_words(words.drop_last(), max);
        let w = words.last();
        let candidate = if cur.len() == 0 {
            w
        } else {
            spaced(cur, w)
        };
        if candidate.len() <= max {
            (done, candidate)
        } else {
            (if cur.len() == 0 {
                done
            } else {
                done.push(cur)
            }, w)
        }
    }
}

/// The lines of `text` wrapped to `max` characters: its words filled
/// greedily; a single empty line where there are no words.
pub open spec fn spec_wrap_text(text: Seq<char>, max: nat) -> Seq<Seq<char>> {
    let words = split_words(text);
    if words.len() == 0 {
        seq![Seq::empty()]
    } else {
        let (done, cur) = fill_words(words, max);
        if cur.len() == 0 {
            done
        } else {
            done.push(cur)
        }
    }
}

/// Wraps prose into lines of at most `max_chars` characters, breaking only
/// between words (a word longer than the line stands alone).
pub fn wrap_text(text: &str, max_chars: usize) -> (lines: Vec<String>)
    ensures
        strings_view(lines@) == spec_wrap_text(text@, max_chars as nat),
{
    let chars = chars_of(text);
    let words = split_words_exec(chars.as_slice());
    let mut out: Vec<String> = Vec::new();
    if words.len() == 0 {
        out.push(String::new());
        assert(strings_view(out@) == seq![Seq::<char>::empty()]);
        return out;
    }
    let ghost ws = deep_chars(words@);
    let mut current: Vec<char> = Vec::new();
    let mut i: usize = 0;
    while i < words.len()
        invariant
            i <= words@.len(),
            ws == deep_chars(words@),
            ws == split_words(text@),
            (strings_view(out@), current@) == fill_words(ws.take(i as int), max_chars as nat),
        decreases words@.len() - i,
    {
        assert(ws.take(i + 1).drop_last() == ws.take(i as int));
        assert(ws.take(i + 1).last() == words@[i as int]@);
        let word = words[i].as_slice();
        let mut candidate: Vec<char> = Vec::new();
        if current.len() == 0 {
            append_all(&mut candidate, word);
        } else {
            append_all(&mut candidate, current.as_slice());
            candidate.push(' ');
            append_all(&mut candidate, word);
        }
        if candidate.len() <= max_chars {
            current = candidate;
        } else {
            if current.len() > 0 {
                let ghost before = strings_view(out@);
                let s = string_of(current.as_slice());
                out.push(s);
                assert(strings_view(out@) == before.push(s@));
            }
            let mut w: Vec<char> = Vec::new();
            append_all(&mut w, word);
            current = w;
        }
        i = i + 1;
    }
    assert(ws.take(words@.len() as int) == ws);
    if current.len() > 0 {
        let ghost before = strings_view(out@);
        let s = string_of(current.as_slice());
        out.push(s);
        assert(strings_view(out@) == before.push(s@));
    }
    out
}

/// Wrapping loses no word and adds none: the lines joined by single spaces
/// are the words joined by single spaces.
pub proof fn lemma_wrap_keeps_words(text: Seq<char>, max: nat)
    ensures
        join(spec_wrap_text(text, max), seq![' ']) == join(split_words(text), seq![' ']),
{
    let words = split_words(text);
    lemma_words_nonempty(Seq::empty(), text);
    if words.len() > 0 {
        lemma_fill_joins(words, max);
    }
}

/// The words of a text are never empty.
pub proof fn lemma_words_nonempty(cur: Seq<char>, s: Seq<char>)
    ensures
        forall|i: int| 0 <= i < words_from(cur, s).len() ==> #[trigger] words_from(cur, s)[i].len() > 0,
    decreases s.len(),
{
    if s.len() > 0 {
        if is_ws(s[0]) {
            lemma_words_nonempty(Seq::empty(), s.drop_first());
            let head: Seq<Seq<char>> = if cur.len() == 0 {
                Seq::empty()
            } else {
                seq![cur]
            };
            let rest = words_from(Seq::empty(), s.drop_first());
            assert(words_from(cur, s) == head + rest);
            assert forall|i: int| 0 <= i < (head + rest).len() implies #[trigger] (head + rest)[i].len() > 0 by {
                if i >= head.len() {
                    assert((head + rest)[i] == rest[i - head.len()]);
                }
            }
        } else {
            lemma_words_nonempty(cur.push(s[0]), s.drop_first());
            assert(words_from(cur, s) == words_from(cur.push(s[0]), s.drop_first()));
        }
    } else {
        if cur.len() > 0 {
            assert(words_from(cur, s) == seq![cur]);
            assert(words_from(cur, s)[0] == cur);
        } else {
            assert(words_from(cur, s).len() == 0);
        }
    }
}

proof fn lemma_join_push(parts: Seq<Seq<char>>, x: Seq<char>, sep: Seq<char>)
    ensures
        join(parts.push(x), sep) == if parts.len() == 0 {
            x
        } else {
            join(parts, sep) + sep + x
        },
{
    assert(parts.push(x).drop_last() == parts);
}

proof fn lemma_fill_joins(words: Seq<Seq<char>>, max: nat)
    requires
        words.len() > 0,
        forall|i: int| 0 <= i < words.len() ==> #[trigger] words[i].len() > 0,
    ensures
        fill_words(words, max).1.len() > 0,
        join(fill_words(words, max).0.push(fill_words(words, max).1), seq![' ']) == join(
            words,
            seq![' '],
        ),
    decreases words.len(),
{
    let sp = seq![' '];
    let w = words.last();
    let (done, cur) = fill_words(words.drop_last(), max);
    if words.len() == 1 {
        assert(words.drop_last().len() == 0);
        assert(done.len() == 0 && cur.len() == 0);
        lemma_join_push(done, w, sp);
        assert(words == seq![w]);
    } else {
        assert forall|i: int| 0 <= i < words.drop_last().len() implies #[trigger] words.drop_last()[i].len() > 0 by {
            assert(words.drop_last()[i] == words[i]);
        }
        lemma_fill_joins(words.drop_last(), max);
        lemma_join_push(words.drop_last(), w, sp);
        let (done2, cur2) = fill_words(words, max);
        lemma_join_push(done, cur, sp);
        assert(words.drop_last().last() == words[words.len() - 2]);
        {
            let candidate = spaced(cur, w);
            if candidate.len() <= max {
                lemma_join_push(done, candidate, sp);
                if done.len() == 0 {
                } else {
                    assert(join(done, sp) + sp + (cur + sp + w) == join(done, sp) + sp + cur + sp + w);
                }
            } else {
                lemma_join_push(done.push(cur), w, sp);
            }
        }
    }
}

/// A wrapped line fits the budget, unless it is a single word too long to
/// fit.
pub open spec fn fits_or_single_word(line: Seq<char>, max: nat) -> bool {
    line.len() <= max || !line.contains(' ')
}

/// Every line that `wrap_text` gives is at most `max` characters long or
/// is one word (holds no space).
pub proof fn lemma_wrap_lines_fit(text: Seq<char>, max: nat)
    ensures
        forall|i: int|
            0 <= i < spec_wrap_text(text, max).len() ==> fits_or_single_word(
                #[trigger] spec_wrap_text(text, max)[i],
                max,
            ),
{
    let words = split_words(text);
    lemma_words_no_space(Seq::empty(), text);
    if words.len() > 0 {
        lemma_fill_fits(words, max);
        let (done, cur) = fill_words(words, max);
        if cur.len() > 0 {
            assert forall|i: int| 0 <= i < done.push(cur).len() implies fits_or_single_word(
                #[trigger] done.push(cur)[i],
                max,
            ) by {
                if i < done.len() {
                    assert(done.push(cur)[i] == done[i]);
                }
            }
        }
    } else {
        assert(spec_wrap_text(text, max)[0].len() == 0);
    }
}

proof fn lemma_fill_fits(words: Seq<Seq<char>>, max: nat)
    requires
        forall|i: int| 0 <= i < words.len() ==> !(#[trigger] words[i]).contains(' '),
    ensures
        forall|i: int|
            0 <= i < fill_words(words, max).0.len() ==> fits_or_single_word(
                #[trigger] fill_words(words, max).0[i],
                max,
            ),
        fits_or_single_word(fill_words(words, max).1, max),
    decreases words.len(),
{
    if words.len() > 0 {
        assert forall|i: int| 0 <= i < words.drop_last().len() implies !(
        #[trigger] words.drop_last()[i]).contains(' ') by {
            assert(words.drop_last()[i] == words[i]);
        }
        lemma_fill_fits(words.drop_last(), max);
        let (done, cur) = fill_words(words.drop_last(), max);
        let w = words.last();
        assert(!w.contains(' '));
        assert forall|i: int| 0 <= i < done.push(cur).len() implies fits_or_single_word(
            #[trigger] done.push(cur)[i],
            max,
        ) by {
            if i < done.len() {
                assert(done.push(cur)[i] == done[i]);
            }
        }
    }
}

/// No word of a text holds a space.
pub proof fn lemma_words_no_space(cur: Seq<char>, s: Seq<char>)
    requires
        !cur.contains(' '),
    ensures
        forall|i: int|
            0 <= i < words_from(cur, s).len() ==> !(#[trigger] words_from(cur, s)[i]).contains(' '),
    decreases s.len(),
{
    if s.len() > 0 {
        if is_ws(s[0]) {
            lemma_words_no_space(Seq::empty(), s.drop_first());
            let head: Seq<Seq<char>> = if cur.len() == 0 {
                Seq::empty()
            } else {
                seq![cur]
            };
            let rest = words_from(Seq::empty(), s.drop_first());
            assert(words_from(cur, s) == head + rest);
            assert forall|i: int| 0 <= i < (head + rest).len() implies !(
            #[trigger] (head + rest)[i]).contains(' ') by {
                if i >= head.len() {
                    assert((head + rest)[i] == rest[i - head.len()]);
                } else {
                    assert((head + rest)[i] == cur);
                }
            }
        } else {
            assert(s[0] != ' ');
            assert(!cur.push(s[0]).contains(' ')) by {
                if cur.push(s[0]).contains(' ') {
                    let k = choose|k: int| 0 <= k < cur.push(s[0]).len() && cur.push(s[0])[k] == ' ';
                    if k < cur.len() {
                        assert(cur[k] == ' ');
                    }
                }
            }
            lemma_words_no_space(cur.push(s[0]), s.drop_first());
            assert(words_from(cur, s) == words_from(cur.push(s[0]), s.drop_first()));
        }
    } else {
        if cur.len() > 0 {
            assert(words_from(cur, s) == seq![cur]);
            assert(words_from(cur, s)[0] == cur);
        } else {
            assert(words_from(cur, s).len() == 0);
        }
    }
}

/// The fewest characters a code line may be wrapped at.
pub const MIN_CODE_COLUMNS: usize = 24;

/// The number of characters code is wrapped at: the column budget, but at
/// least 24.
pub open spec fn code_columns(budget: nat) -> nat {
    if budget < MIN_CODE_COLUMNS {
        MIN_CODE_COLUMNS as nat
    } else {
        budget
    }
}

/// Two spaces: how every continuation line of wrapped code begins.
pub open spec fn continuation_indent() -> Seq<char> {
    seq![' ', ' ']
}

/// Cutting `s` into pieces of `max` characters: the finished pieces and the
/// piece being filled. Each finished piece is followed by a piece that
/// begins with two spaces.
pub open spec fn chop_chars(s: Seq<char>, max: nat) -> (Seq<Seq<char>>, Seq<char>)
    decreases s.len(),
{
    if s.len() == 0 {
        (Seq::empty(), Seq::empty())
    } else {
        let (done, cur) = chop_chars(s.drop_last(), max);
        let filled = cur.push(s.last());
        if filled.len() >= max {
            (done.push(filled), continuation_indent())
        } else {
            (done, filled)
        }
    }
}

/// The lines of a code line wrapped at `code_columns(budget)` characters:
/// the line itself where it fits, else its pieces, where a last piece that
/// is only whitespace is dropped.
pub open spec fn spec_wrap_code_line(line: Seq<char>, budget: nat) -> Seq<Seq<char>> {
    let max = code_columns(budget);
    if line.len() <= max {
        seq![line]
    } else {
        let (done, cur) = chop_chars(line, max);
        if trim(cur).len() > 0 {
            done.push(cur)
        } else {
            done
        }
    }
}

/// Wraps one line of code at `column_budget` characters (at least 24);
/// continuation lines are indented by two spaces.
pub fn wrap_code_line(line: &str, column_budget: usize) -> (lines: Vec<String>)
    ensures
        strings_view(lines@) == spec_wrap_code_line(line@, column_budget as nat),
{
    let max = if column_budget < MIN_CODE_COLUMNS {
        MIN_CODE_COLUMNS
    } else {
        column_budget
    };
    let chars = chars_of(line);
    let mut out: Vec<String> = Vec::new();
    if chars.len() <= max {
        let s = string_of(chars.as_slice());
        out.push(s);
        assert(strings_view(out@) == seq![s@]);
        return out;
    }
    let mut current: Vec<char> = Vec::new();
    let mut i: usize = 0;
    while i < chars.len()
        invariant
            i <= chars@.len(),
            max == code_columns(column_budget as nat),
            (strings_view(out@), current@) == chop_chars(chars@.take(i as int), max as nat),
            current@.len() < max,
        decreases chars@.len() - i,
    {
        assert(chars@.take(i + 1).drop_last() == chars@.take(i as int));
        current.push(chars[i]);
        if current.len() >= max {
            let ghost before = strings_view(out@);
            let s = string_of(current.as_slice());
            out.push(s);
            assert(strings_view(out@) == before.push(s@));
            current = vec![' ', ' '];
            assert(current@ == continuation_indent());
        }
        i = i + 1;
    }
    assert(chars@.take(chars@.len() as int) == chars@);
    if !is_blank(current.as_slice()) {
        let ghost before = strings_view(out@);
        let s = string_of(current.as_slice());
        out.push(s);
        assert(strings_view(out@) == before.push(s@));
    }
    out
}

/// No wrapped code line is longer than the number of columns it was
/// wrapped at.
pub proof fn lemma_code_lines_fit(line: Seq<char>, budget: nat)
    ensures
        forall|i: int|
            0 <= i < spec_wrap_code_line(line, budget).len() ==> (#[trigger] spec_wrap_code_line(
                line,
                budget,
            )[i]).len() <= code_columns(budget),
{
    let max = code_columns(budget);
    if line.len() > max {
        lemma_chop_fits(line, max);
        let (done, cur) = chop_chars(line, max);
        assert forall|i: int| 0 <= i < done.push(cur).len() implies (
        #[trigger] done.push(cur)[i]).len() <= max by {
            if i < done.len() {
                assert(done.push(cur)[i] == done[i]);
            }
        }
    }
}

proof fn lemma_chop_fits(s: Seq<char>, max: nat)
    requires
        max >= MIN_CODE_COLUMNS,
    ensures
        forall|i: int| 0 <= i < chop_chars(s, max).0.len() ==> (#[trigger] chop_chars(s, max).0[i]).len() <= max,
        chop_chars(s, max).1.len() < max,
    decreases s.len(),
{
    if s.len() > 0 {
        lemma_chop_fits(s.drop_last(), max);
        let (done, cur) = chop_chars(s.drop_last(), max);
        let filled = cur.push(s.last());
        assert forall|i: int| 0 <= i < done.push(filled).len() implies (
        #[trigger] done.push(filled)[i]).len() <= max by {
            if i < done.len() {
                assert(done.push(filled)[i] == done[i]);
            }
        }
    }
}

/// The text of wrapped code: the first line, then each further line
/// without its two-space indent.
pub open spec fn unwrapped_code(lines: Seq<Seq<char>>) -> Seq<char>
    decreases lines.len(),
{
    if lines.len() == 0 {
        Seq::empty()
    } else if lines.len() == 1 {
        lines[0]
    } else {
        unwrapped_code(lines.drop_last()) + lines.last().skip(2)
    }
}

proof fn lemma_chop_content(s: Seq<char>, max: nat)
    requires
        max >= MIN_CODE_COLUMNS,
    ensures
        ({
            let (done, cur) = chop_chars(s, max);
            &&& done.len() == 0 ==> cur == s
            &&& done.len() > 0 ==> cur.len() >= 2 && cur.take(2) == continuation_indent()
                && unwrapped_code(done) + cur.skip(2) == s
        }),
    decreases s.len(),
{
    if s.len() > 0 {
        let s0 = s.drop_last();
        let x = s.last();
        lemma_chop_content(s0, max);
        lemma_chop_fits(s0, max);
        let (d0, c0) = chop_chars(s0, max);
        let filled = c0.push(x);
        assert(s0.push(x) == s);
        if d0.len() > 0 {
            assert(filled.skip(2) == c0.skip(2).push(x));
            assert(filled.take(2) == c0.take(2));
        }
        if filled.len() >= max {
            let done = d0.push(filled);
            assert(done.drop_last() == d0);
            assert(continuation_indent().skip(2) == Seq::<char>::empty());
            assert(continuation_indent().take(2) == continuation_indent());
            if d0.len() == 0 {
                assert(unwrapped_code(done) == filled);
                assert(filled + Seq::<char>::empty() == filled);
            } else {
                assert(unwrapped_code(done) == unwrapped_code(d0) + filled.skip(2));
                assert(unwrapped_code(d0) + c0.skip(2).push(x) == (unwrapped_code(d0) + c0.skip(2)).push(x));
            }
        } else if d0.len() > 0 {
            assert(unwrapped_code(d0) + c0.skip(2).push(x) == (unwrapped_code(d0) + c0.skip(2)).push(x));
        }
    } else {
        assert(s == Seq::<char>::empty());
    }
}

/// Wrapping code loses nothing but trailing whitespace: without their
/// indents, the wrapped lines spell out the line up to a tail that is only
/// whitespace.
pub proof fn lemma_code_wrap_keeps_text(line: Seq<char>, budget: nat)
    ensures
        ({
            let u = unwrapped_code(spec_wrap_code_line(line, budget));
            &&& u.len() <= line.len()
            &&& line.take(u.len() as int) == u
            &&& all_ws(line.skip(u.len() as int))
        }),
{
    let max = code_columns(budget);
    if line.len() <= max {
        assert(line.take(line.len() as int) == line);
    } else {
        lemma_chop_content(line, max);
        lemma_chop_fits(line, max);
        let (done, cur) = chop_chars(line, max);
        assert(done.len() > 0);
        if trim(cur).len() > 0 {
            let lines = done.push(cur);
            assert(lines.drop_last() == done);
            assert(unwrapped_code(lines) == unwrapped_code(done) + cur.skip(2));
            assert(line.take(line.len() as int) == line);
        } else {
            lemma_trim_empty_iff_all_ws(cur);
            let u = unwrapped_code(done);
            assert(line == u + cur.skip(2));
            assert(line.take(u.len() as int) == u);
            assert(line.skip(u.len() as int) == cur.skip(2));
            assert forall|i: int| 0 <= i < cur.skip(2).len() implies is_ws(#[trigger] cur.skip(2)[i]) by {
                assert(cur.skip(2)[i] == cur[i + 2]);
            }
        }
    }
}

} // verus!

verus! {

/// A code line that fits in the columns comes back unchanged as the one
/// wrapped line, and wrapping never gives no line at all: a blank line of
/// code stays a (blank) line.
pub proof fn lemma_code_line_kept_when_it_fits(line: Seq<char>, budget: nat)
    ensures
        line.len() <= code_columns(budget) ==> spec_wrap_code_line(line, budget) == seq![line],
        spec_wrap_code_line(line, budget).len() >= 1,
        spec_wrap_code_line(line, budget)[0] == line.take(
            spec_wrap_code_line(line, budget)[0].len() as int,
        ),
{
    let max = code_columns(budget);
    if line.len() > max {
        lemma_chop_content(line, max);
        lemma_chop_fits(line, max);
        lemma_chop_first(line, max);
    }
}

/// Once a piece is finished, the first finished piece is the first `max`
/// characters of the line.
proof fn lemma_chop_first(s: Seq<char>, max: nat)
    requires
        max >= MIN_CODE_COLUMNS,
    ensures
        chop_chars(s, max).0.len() > 0 ==> chop_chars(s, max).0[0] == s.take(max as int)
            && s.len() >= max,
        s.len() >= max ==> chop_chars(s, max).0.len() > 0,
        chop_chars(s, max).0.len() == 0 ==> chop_chars(s, max).1 == s,
    decreases s.len(),
{
    if s.len() > 0 {
        let s0 = s.drop_last();
        lemma_chop_first(s0, max);
        lemma_chop_fits(s0, max);
        let (d0, c0) = chop_chars(s0, max);
        let filled = c0.push(s.last());
        if d0.len() > 0 {
            assert(s0.take(max as int) == s.take(max as int));
        } else {
            assert(c0 == s0);
            assert(filled == s);
            if filled.len() >= max {
                assert(filled.len() == max);
                assert(s.take(max as int) == s);
            }
        }
    }
}

} // verus!

verus! {

/// The first word of a line: its characters up to the first space.
pub open spec fn line_head(s: Seq<char>) -> Seq<char>
    decreases s.len(),
{
    if s.len() == 0 || s[0] == ' ' {
        Seq::empty()
    } else {
        seq![s[0]] + line_head(s.drop_first())
    }
}

proof fn lemma_head_spaced(a: Seq<char>, w: Seq<char>)
    ensures
        line_head(spaced(a, w)) == line_head(a),
    decreases a.len(),
{
    if a.len() == 0 {
        assert(spaced(a, w)[0] == ' ');
    } else {
        assert(spaced(a, w)[0] == a[0]);
        if a[0] != ' ' {
            assert(spaced(a, w).drop_first() == spaced(a.drop_first(), w));
            lemma_head_spaced(a.drop_first(), w);
        }
    }
}

proof fn lemma_head_word(w: Seq<char>)
    requires
        !w.contains(' '),
    ensures
        line_head(w) == w,
    decreases w.len(),
{
    if w.len() > 0 {
        assert(w[0] != ' ');
        assert(!w.drop_first().contains(' ')) by {
            if w.drop_first().contains(' ') {
                let k = choose|k: int| 0 <= k < w.drop_first().len() && w.drop_first()[k] == ' ';
                assert(w[k + 1] == ' ');
            }
        }
        lemma_head_word(w.drop_first());
        assert(seq![w[0]] + w.drop_first() == w);
    }
}

proof fn lemma_head_len(s: Seq<char>)
    ensures
        line_head(s).len() <= s.len(),
    decreases s.len(),
{
    if s.len() > 0 && s[0] != ' ' {
        lemma_head_len(s.drop_first());
    }
}

proof fn lemma_fill_greedy(words: Seq<Seq<char>>, max: nat)
    requires
        forall|i: int| 0 <= i < words.len() ==> #[trigger] words[i].len() > 0,
        forall|i: int| 0 <= i < words.len() ==> !(#[trigger] words[i]).contains(' '),
    ensures
        ({
            let (done, cur) = fill_words(words, max);
            &&& words.len() > 0 ==> cur.len() > 0
            &&& words.len() == 0 ==> done.len() == 0
            &&& forall|i: int|
                0 <= i && i + 1 < done.len() ==> spaced(
                    #[trigger] done[i],
                    line_head(done[i + 1]),
                ).len() > max
            &&& done.len() > 0 ==> spaced(done.last(), line_head(cur)).len() > max
        }),
    decreases words.len(),
{
    if words.len() > 0 {
        let ws = words.drop_last();
        assert forall|i: int| 0 <= i < ws.len() implies #[trigger] ws[i].len() > 0 && !ws[i].contains(' ') by {
            assert(ws[i] == words[i]);
        }
        lemma_fill_greedy(ws, max);
        let (d0, c0) = fill_words(ws, max);
        let w = words.last();
        assert(w == words[words.len() - 1]);
        lemma_head_word(w);
        let (done, cur) = fill_words(words, max);
        if c0.len() == 0 {
            assert(ws.len() == 0);
            assert(d0.len() == 0);
        } else {
            let candidate = spaced(c0, w);
            if candidate.len() <= max {
                lemma_head_spaced(c0, w);
            } else {
                assert(done == d0.push(c0));
                assert forall|i: int| 0 <= i && i + 1 < done.len() implies spaced(
                    #[trigger] done[i],
                    line_head(done[i + 1]),
                ).len() > max by {
                    assert(done[i] == d0[i]);
                    if i + 1 < d0.len() {
                        assert(done[i + 1] == d0[i + 1]);
                    } else {
                        assert(done[i + 1] == c0);
                        assert(d0[i] == d0.last());
                    }
                }
            }
        }
    }
}

proof fn lemma_join_two_first(parts: Seq<Seq<char>>, sep: Seq<char>)
    requires
        parts.len() >= 2,
    ensures
        join(parts, sep).len() >= parts[0].len() + sep.len() + parts[1].len(),
    decreases parts.len(),
{
    let front = parts.drop_last();
    assert(front[0] == parts[0]);
    assert(front.len() >= 1);
    if parts.len() > 2 {
        assert(front[1] == parts[1]);
        lemma_join_two_first(front, sep);
    } else {
        assert(join(front, sep) == front[0]);
        assert(parts.last() == parts[1]);
    }
    assert(join(parts, sep) == join(front, sep) + sep + parts.last());
}

/// Wrapping is greedy: a word goes to the next line only when it does not
/// fit on the line before. For every two consecutive lines, the first line,
/// a space and the first word of the second take more than `max`
/// characters. So a text whose words, spaced, fit in `max` characters is
/// one line.
pub proof fn lemma_wrap_is_greedy(text: Seq<char>, max: nat)
    ensures
        forall|i: int|
            0 <= i && i + 1 < spec_wrap_text(text, max).len() ==> spaced(
                #[trigger] spec_wrap_text(text, max)[i],
                line_head(spec_wrap_text(text, max)[i + 1]),
            ).len() > max,
        join(split_words(text), seq![' ']).len() <= max ==> spec_wrap_text(text, max).len() == 1,
{
    let words = split_words(text);
    lemma_words_nonempty(Seq::empty(), text);
    lemma_words_no_space(Seq::empty(), text);
    let lines = spec_wrap_text(text, max);
    if words.len() > 0 {
        lemma_fill_greedy(words, max);
        let (done, cur) = fill_words(words, max);
        assert(lines == done.push(cur));
        assert forall|i: int| 0 <= i && i + 1 < lines.len() implies spaced(
            #[trigger] lines[i],
            line_head(lines[i + 1]),
        ).len() > max by {
            assert(lines[i] == done[i]);
            if i + 1 < done.len() {
                assert(lines[i + 1] == done[i + 1]);
            } else {
                assert(lines[i + 1] == cur);
            }
        }
        if lines.len() >= 2 {
            lemma_wrap_keeps_words(text, max);
            lemma_join_two_first(lines, seq![' ']);
            lemma_head_len(lines[1]);
            assert(spaced(lines[0], line_head(lines[1])).len() > max);
        }
    }
}

} // verus!
