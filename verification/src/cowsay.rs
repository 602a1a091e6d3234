//! The "cowsay" rendering of a generated reply: the message is wrapped at a
//! column count, measured in display columns, and drawn in a speech bubble
//! above an ASCII cow, all inside a Markdown code block.

use vstd::prelude::*;
use vstd::string::*;
use crate::text::{
    all_words, chars_of, char_rows, is_white_space, is_word, join_lines, lemma_lines_of_join,
    lemma_words_are_words, lines_spec, push_chars, push_repeated, remove_fences, split_lines,
    split_whitespace, split_whitespace_spec, strip_fences, words_from,
};

verus! {

/// The column width that `unicode_width::UnicodeWidthChar::width` assigns to
/// a character (`None` for control characters).
pub uninterp spec fn unicode_char_width(c: char) -> Option<usize>;

/// Calls `unicode_width::UnicodeWidthChar::width`.  Its contract restates what
/// the crate's source shows: control characters (below U+0020 and from U+007F
/// to U+009F) have no width, printable ASCII is one column wide, and no
/// character is wider than three columns; the width of any other character
/// comes from the crate's Unicode tables and is only named.
#[verifier::external_body]
fn unicode_width_of(c: char) -> (w: Option<usize>)
    ensures
        w == unicode_char_width(c),
        w is None <==> ((c as u32) < 0x20 || (0x7F <= (c as u32) && (c as u32) < 0xA0)),
        (0x20 <= (c as u32) && (c as u32) < 0x7F) ==> w == Some(1usize),
        w matches Some(n) ==> n <= 3,
{
    unicode_width::UnicodeWidthChar::width(c)
}

/// The columns a character takes in the bubble: one for an ASCII character,
/// else its Unicode width, and one for a character without a width.
pub open spec fn column_width(c: char) -> nat {
    if (c as u32) < 0x80 {
        1
    } else {
        match unicode_char_width(c) {
            Some(w) => w as nat,
            None => 1,
        }
    }
}

/// The display width of a text: the sum of its characters' column widths.
pub open spec fn display_width(s: Seq<char>) -> nat
    decreases s.len(),
{
    if s.len() == 0 {
        0
    } else {
        display_width(s.drop_last()) + column_width(s.last())
    }
}

/// One step of the word wrapping: `state` holds the text wrapped so far and
/// the line being filled.  A word that would make the line, with a separating
/// space, wider than `wrap_at` closes the line and starts the next one.
pub open spec fn wrap_step(state: (Seq<char>, Seq<char>), word: Seq<char>, wrap_at: nat) -> (
    Seq<char>,
    Seq<char>,
) {
    let wrapped = state.0;
    let line = state.1;
    if display_width(line) + display_width(word) + 1 > wrap_at {
        ((if wrapped.len() > 0 { wrapped.push('\n') } else { wrapped }) + line, word)
    } else {
        (wrapped, (if line.len() > 0 { line.push(' ') } else { line }) + word)
    }
}

/// The wrapping state after the given words.
pub open spec fn wrap_words(words: Seq<Seq<char>>, wrap_at: nat) -> (Seq<char>, Seq<char>)
    decreases words.len(),
{
    if words.len() == 0 {
        (seq![], seq![])
    } else {
        wrap_step(wrap_words(words.drop_last(), wrap_at), words.last(), wrap_at)
    }
}

/// The words of `text` wrapped into lines of at most `wrap_at` columns (a
/// single word wider than that stands on a line of its own).
pub open spec fn wrap_text(text: Seq<char>, wrap_at: nat) -> Seq<char> {
    let state = wrap_words(split_whitespace_spec(text), wrap_at);
    let wrapped = state.0;
    let line = state.1;
    if line.len() > 0 {
        (if wrapped.len() > 0 { wrapped.push('\n') } else { wrapped }) + line
    } else {
        wrapped
    }
}

/// The largest display width among the lines (0 for none).
pub open spec fn max_width(lines: Seq<Seq<char>>) -> nat
    decreases lines.len(),
{
    if lines.len() == 0 {
        0
    } else {
        let m = max_width(lines.drop_last());
        let w = display_width(lines.last());
        if w > m {
            w
        } else {
            m
        }
    }
}

/// `count` copies of `c`.
pub open spec fn repeated(c: char, count: nat) -> Seq<char> {
    Seq::new(count, |i: int| c)
}

/// A line of the bubble: the text padded with spaces to `width` columns
/// between the two borders.
pub open spec fn framed(line: Seq<char>, width: nat, left: Seq<char>, right: Seq<char>) -> Seq<char> {
    left + line + repeated(' ', (width - display_width(line)) as nat) + right
}

/// The `i`-th line of a bubble of several lines: `/ .. \` first, `\ .. /`
/// last, `| .. |` between.
pub open spec fn bubble_row(lines: Seq<Seq<char>>, width: nat, i: int) -> Seq<char> {
    if i == 0 {
        framed(lines[i], width, seq!['/', ' '], seq![' ', '\\', '\n'])
    } else if i == lines.len() - 1 {
        framed(lines[i], width, seq!['\\', ' '], seq![' ', '/', '\n'])
    } else {
        framed(lines[i], width, seq!['|', ' '], seq![' ', '|', '\n'])
    }
}

/// The first `k` lines of a bubble of several lines.
pub open spec fn bubble_rows(lines: Seq<Seq<char>>, width: nat, k: nat) -> Seq<char>
    decreases k,
{
    if k == 0 {
        seq![]
    } else {
        bubble_rows(lines, width, (k - 1) as nat) + bubble_row(lines, width, k - 1)
    }
}

/// The top or bottom edge of a bubble: a space, `width + 2` copies of `c`, a line feed.
pub open spec fn edge(c: char, width: nat) -> Seq<char> {
    seq![' '] + repeated(c, width + 2) + seq!['\n']
}

/// The speech bubble around the lines: a one-line bubble has `-` edges and
/// `|` borders; any other has a `_` top edge, a `-` bottom edge and rounded
/// borders.
pub open spec fn bubble(lines: Seq<Seq<char>>) -> Seq<char> {
    let width = max_width(lines);
    if lines.len() == 1 {
        edge('-', width) + framed(lines[0], width, seq!['|', ' '], seq![' ', '|', '\n']) + edge(
            '-',
            width,
        )
    } else {
        edge('_', width) + bubble_rows(lines, width, lines.len()) + edge('-', width)
    }
}

/// The cow below the bubble.
pub const COW_PICTURE: &'static str = "     \\   ^__^\n      \\  (oo)\\_______\n         (__)\\       )\\/\\\n             ||----w |\n             ||     ||";

/// The column count at which the bubble wraps when none is given.
pub const DEFAULT_WRAP: usize = 40;

/// The full cowsay reply: the message without code fences, wrapped, in a
/// bubble above the cow, inside a code block.
pub open spec fn cowsay_text(message: Seq<char>, wrap_at: nat) -> Seq<char> {
    seq!['`', '`', '`', '\n'] + bubble(lines_spec(wrap_text(remove_fences(message), wrap_at)))
        + COW_PICTURE@ + seq!['\n', '`', '`', '`']
}

/// The columns a character takes.
fn char_columns(c: char) -> (w: u128)
    ensures
        w == column_width(c),
        w <= 3,
{
    if (c as u32) < 0x80 {
        1
    } else {
        match unicode_width_of(c) {
            Some(n) => n as u128,
            None => 1,
        }
    }
}

/// The display width of a text.
pub fn text_width(s: &Vec<char>) -> (w: u128)
    ensures
        w == display_width(s@),
        w <= 3 * s.len(),
{
    let mut w: u128 = 0;
    let mut i: usize = 0;
    while i < s.len()
        invariant
            i <= s.len(),
            w == display_width(s@.take(i as int)),
            w <= 3 * i,
        decreases s.len() - i,
    {
        proof {
            assert(s@.take(i + 1).drop_last() =~= s@.take(i as int));
        }
        w = w + char_columns(s[i]);
        i = i + 1;
    }
    proof {
        assert(s@.take(s.len() as int) =~= s@);
    }
    w
}

/// Wraps the words at `wrap_at` columns.
fn wrap(words: &Vec<Vec<char>>, wrap_at: usize) -> (text: Vec<char>)
    ensures
        text@ == ({
            let state = wrap_words(char_rows(words@), wrap_at as nat);
            if state.1.len() > 0 {
                (if state.0.len() > 0 { state.0.push('\n') } else { state.0 }) + state.1
            } else {
                state.0
            }
        }),
{
    let ghost all = char_rows(words@);
    let mut wrapped: Vec<char> = Vec::new();
    let mut line: Vec<char> = Vec::new();
    let mut i: usize = 0;
    proof {
        assert(all.take(0) =~= Seq::<Seq<char>>::empty());
        assert(wrapped@ =~= Seq::<char>::empty());
        assert(line@ =~= Seq::<char>::empty());
    }
    while i < words.len()
        invariant
            i <= words.len(),
            all == char_rows(words@),
            (wrapped@, line@) == wrap_words(all.take(i as int), wrap_at as nat),
        decreases words.len() - i,
    {
        let word = &words[i];
        proof {
            assert(all.take(i + 1).drop_last() =~= all.take(i as int));
            assert(all.take(i + 1).last() == word@);
        }
        let line_w = text_width(&line);
        let word_w = text_width(word);
        if line_w + word_w + 1 > wrap_at as u128 {
            if wrapped.len() > 0 {
                wrapped.push('\n');
            }
            let ghost before = wrapped@;
            let mut k: usize = 0;
            while k < line.len()
                invariant
                    k <= line.len(),
                    wrapped@ == before + line@.take(k as int),
                decreases line.len() - k,
            {
                proof {
                    assert(line@.take(k + 1) =~= line@.take(k as int).push(line@[k as int]));
                }
                wrapped.push(line[k]);
                k = k + 1;
            }
            proof {
                assert(line@.take(line.len() as int) =~= line@);
            }
            line = word.clone();
            proof {
                assert(line@ =~= word@);
            }
        } else {
            if line.len() > 0 {
                line.push(' ');
            }
            let ghost before = line@;
            let mut k: usize = 0;
            while k < word.len()
                invariant
                    k <= word.len(),
                    line@ == before + word@.take(k as int),
                decreases word.len() - k,
            {
                proof {
                    assert(word@.take(k + 1) =~= word@.take(k as int).push(word@[k as int]));
                }
                line.push(word[k]);
                k = k + 1;
            }
            proof {
                assert(word@.take(word.len() as int) =~= word@);
            }
        }
        i = i + 1;
    }
    proof {
        assert(all.take(words.len() as int) =~= all);
    }
    if line.len() > 0 {
        if wrapped.len() > 0 {
            wrapped.push('\n');
        }
        let ghost before = wrapped@;
        let mut k: usize = 0;
        while k < line.len()
            invariant
                k <= line.len(),
                wrapped@ == before + line@.take(k as int),
            decreases line.len() - k,
        {
            proof {
                assert(line@.take(k + 1) =~= line@.take(k as int).push(line@[k as int]));
            }
            wrapped.push(line[k]);
            k = k + 1;
        }
        proof {
            assert(line@.take(line.len() as int) =~= line@);
        }
    }
    wrapped
}

/// The largest display width among the lines, and a bound on it.
fn widest(lines: &Vec<Vec<char>>) -> (w: u128)
    ensures
        w == max_width(char_rows(lines@)),
        w <= 3 * usize::MAX,
        forall|i: int| 0 <= i < lines.len() ==> display_width(#[trigger] lines@[i]@) <= w,
{
    let ghost all = char_rows(lines@);
    let mut w: u128 = 0;
    let mut i: usize = 0;
    while i < lines.len()
        invariant
            i <= lines.len(),
            all == char_rows(lines@),
            w == max_width(all.take(i as int)),
            w <= 3 * usize::MAX,
            forall|j: int| 0 <= j < i ==> display_width(#[trigger] lines@[j]@) <= w,
        decreases lines.len() - i,
    {
        proof {
            assert(all.take(i + 1).drop_last() =~= all.take(i as int));
            assert(all.take(i + 1).last() == lines@[i as int]@);
        }
        let lw = text_width(&lines[i]);
        if lw > w {
            w = lw;
        }
        i = i + 1;
    }
    proof {
        assert(all.take(lines.len() as int) =~= all);
    }
    w
}

/// Appends a framed bubble line.
fn push_framed(
    out: &mut String,
    line: &Vec<char>,
    width: u128,
    left: (char, char),
    right: (char, char, char),
)
    requires
        display_width(line@) <= width,
    ensures
        final(out)@ == old(out)@ + framed(
            line@,
            width as nat,
            seq![left.0, left.1],
            seq![right.0, right.1, right.2],
        ),
{
    out.push(left.0);
    out.push(left.1);
    push_chars(out, line);
    let lw = text_width(line);
    push_repeated(out, ' ', width - lw);
    out.push(right.0);
    out.push(right.1);
    out.push(right.2);
    proof {
        assert(final(out)@ =~= old(out)@ + framed(
            line@,
            width as nat,
            seq![left.0, left.1],
            seq![right.0, right.1, right.2],
        ));
    }
}

/// Appends a bubble edge.
fn push_edge(out: &mut String, c: char, width: u128)
    requires
        width <= u128::MAX - 2,
    ensures
        final(out)@ == old(out)@ + edge(c, width as nat),
{
    out.push(' ');
    push_repeated(out, c, width + 2);
    out.push('\n');
    proof {
        assert(final(out)@ =~= old(out)@ + edge(c, width as nat));
    }
}

/// Appends the speech bubble around the lines.
fn push_bubble(out: &mut String, lines: &Vec<Vec<char>>)
    ensures
        final(out)@ == old(out)@ + bubble(char_rows(lines@)),
{
    let ghost all = char_rows(lines@);
    let width = widest(lines);
    proof {
        if lines.len() > 0 {
            assert(display_width(lines@[0]@) <= width);
        }
    }
    if lines.len() == 1 {
        push_edge(out, '-', width);
        push_framed(out, &lines[0], width, ('|', ' '), (' ', '|', '\n'));
        push_edge(out, '-', width);
        proof {
            assert(final(out)@ =~= old(out)@ + bubble(all));
        }
    } else {
        push_edge(out, '_', width);
        let ghost start = out@;
        let n = lines.len();
        let mut i: usize = 0;
        while i < n
            invariant
                i <= n == lines.len(),
                all == char_rows(lines@),
                width == max_width(all),
                forall|j: int| 0 <= j < lines.len() ==> display_width(#[trigger] lines@[j]@) <= width,
                out@ == start + bubble_rows(all, width as nat, i as nat),
            decreases n - i,
        {
            proof {
                assert(all[i as int] == lines@[i as int]@);
                assert(display_width(lines@[i as int]@) <= width);
            }
            if i == 0 {
                push_framed(out, &lines[i], width, ('/', ' '), (' ', '\\', '\n'));
            } else if i == n - 1 {
                push_framed(out, &lines[i], width, ('\\', ' '), (' ', '/', '\n'));
            } else {
                push_framed(out, &lines[i], width, ('|', ' '), (' ', '|', '\n'));
            }
            proof {
                assert(out@ =~= start + bubble_rows(all, width as nat, (i + 1) as nat));
            }
            i = i + 1;
        }
        push_edge(out, '-', width);
        proof {
            assert(final(out)@ =~= old(out)@ + bubble(all));
        }
    }
}

/// The column count used for wrapping: the one given, else 40.
pub open spec fn wrap_width(wrap_at: Option<usize>) -> nat {
    match wrap_at {
        Some(w) => w as nat,
        None => DEFAULT_WRAP as nat,
    }
}

/// Renders `message` as a cow saying it, wrapped at `wrap_at` columns
/// (40 when none is given).
pub fn cowsay(message: &str, wrap_at: Option<usize>) -> (reply: String)
    ensures
        reply@ == cowsay_text(message@, wrap_width(wrap_at)),
{
    let width = match wrap_at {
        Some(w) => w,
        None => DEFAULT_WRAP,
    };
    let chars = chars_of(message);
    let cleaned = strip_fences(&chars);
    let words = split_whitespace(&cleaned);
    let wrapped = wrap(&words, width);
    let lines = split_lines(&wrapped);
    let mut out = String::new();
    out.push('`');
    out.push('`');
    out.push('`');
    out.push('\n');
    push_bubble(&mut out, &lines);
    out.append(COW_PICTURE);
    out.push('\n');
    out.push('`');
    out.push('`');
    out.push('`');
    proof {
        assert(out@ =~= cowsay_text(message@, wrap_width(wrap_at)));
    }
    out
}

/// The reply to a query: the cow rendering when `cowsay` is `Some(true)`,
/// else the message itself.
pub fn format_reply(message: String, cowsay_flag: Option<bool>, wrap_at: Option<usize>) -> (reply: String)
    ensures
        reply@ == (if cowsay_flag == Some(true) {
            cowsay_text(message@, wrap_width(wrap_at))
        } else {
            message@
        }),
{
    match cowsay_flag {
        Some(true) => cowsay(message.as_str(), wrap_at),
        _ => message,
    }
}

// ---------------------------------------------------------------------------
// Laws of the rendering
// ---------------------------------------------------------------------------

/// Display widths add up over concatenation.
pub proof fn lemma_display_width_concat(a: Seq<char>, b: Seq<char>)
    ensures
        display_width(a + b) == display_width(a) + display_width(b),
    decreases b.len(),
{
    if b.len() == 0 {
        assert(a + b =~= a);
    } else {
        assert((a + b).drop_last() =~= a + b.drop_last());
        assert((a + b).last() == b.last());
        lemma_display_width_concat(a, b.drop_last());
    }
}

/// `count` copies of an ASCII character take `count` columns.
proof fn lemma_display_width_repeated(c: char, count: nat)
    requires
        (c as u32) < 0x80,
    ensures
        display_width(repeated(c, count)) == count,
    decreases count,
{
    if count > 0 {
        assert(repeated(c, count).drop_last() =~= repeated(c, (count - 1) as nat));
        lemma_display_width_repeated(c, (count - 1) as nat);
    }
}

/// No line is wider than the widest.
proof fn lemma_max_width_bounds(lines: Seq<Seq<char>>, i: int)
    requires
        0 <= i < lines.len(),
    ensures
        display_width(lines[i]) <= max_width(lines),
    decreases lines.len(),
{
    if i < lines.len() - 1 {
        lemma_max_width_bounds(lines.drop_last(), i);
        assert(lines.drop_last()[i] == lines[i]);
    }
}

/// A text in which `c` does not occur.
pub open spec fn lacks(s: Seq<char>, c: char) -> bool {
    forall|j: int| 0 <= j < s.len() ==> s[j] != c
}

/// A line of the wrapped text: nonempty, without line breaks, and either a
/// single word or at most `wrap_at` columns wide.
pub open spec fn fitting_line(l: Seq<char>, wrap_at: nat) -> bool {
    &&& l.len() > 0
    &&& lacks(l, '\n')
    &&& lacks(l, '\r')
    &&& (display_width(l) <= wrap_at || lacks(l, ' '))
}

/// One step of the word wrapping, on the list of completed lines.
pub open spec fn wrap_lines_step(state: (Seq<Seq<char>>, Seq<char>), word: Seq<char>, wrap_at: nat) -> (
    Seq<Seq<char>>,
    Seq<char>,
) {
    let lines = state.0;
    let line = state.1;
    if display_width(line) + display_width(word) + 1 > wrap_at {
        (if line.len() > 0 { lines.push(line) } else { lines }, word)
    } else {
        (lines, (if line.len() > 0 { line.push(' ') } else { line }) + word)
    }
}

/// The completed lines and the line being filled after the given words.
pub open spec fn wrap_lines(words: Seq<Seq<char>>, wrap_at: nat) -> (Seq<Seq<char>>, Seq<char>)
    decreases words.len(),
{
    if words.len() == 0 {
        (seq![], seq![])
    } else {
        wrap_lines_step(wrap_lines(words.drop_last(), wrap_at), words.last(), wrap_at)
    }
}

/// The lines into which the words of `text` are wrapped.
pub open spec fn wrapped_lines(text: Seq<char>, wrap_at: nat) -> Seq<Seq<char>> {
    let state = wrap_lines(split_whitespace_spec(text), wrap_at);
    if state.1.len() > 0 {
        state.0.push(state.1)
    } else {
        state.0
    }
}

proof fn lemma_join_nonempty(parts: Seq<Seq<char>>)
    requires
        parts.len() > 0,
        parts.last().len() > 0,
    ensures
        join_lines(parts).len() > 0,
{
}

proof fn lemma_join_push(parts: Seq<Seq<char>>, line: Seq<char>)
    requires
        line.len() > 0,
        forall|i: int| 0 <= i < parts.len() ==> (#[trigger] parts[i]).len() > 0,
    ensures
        join_lines(parts.push(line)) == (if join_lines(parts).len() > 0 {
            join_lines(parts).push('\n')
        } else {
            join_lines(parts)
        }) + line,
{
    let next = parts.push(line);
    assert(next.drop_last() =~= parts);
    assert(next.last() == line);
    if parts.len() == 0 {
        assert(join_lines(next) == line);
        assert(Seq::<char>::empty() + line =~= line);
    } else {
        lemma_join_nonempty(parts);
        assert(join_lines(next) == join_lines(parts) + seq!['\n'] + line);
        assert(join_lines(parts).push('\n') + line =~= join_lines(parts) + seq!['\n'] + line);
    }
}

/// The wrapped text is the wrapped lines joined by line feeds, and every
/// wrapped line fits.
proof fn lemma_wrap_representation(words: Seq<Seq<char>>, wrap_at: nat)
    requires
        all_words(words),
    ensures
        wrap_words(words, wrap_at).0 == join_lines(wrap_lines(words, wrap_at).0),
        wrap_words(words, wrap_at).1 == wrap_lines(words, wrap_at).1,
        wrap_lines(words, wrap_at).1.len() == 0 ==> wrap_lines(words, wrap_at).0.len() == 0,
        forall|i: int|
            0 <= i < wrap_lines(words, wrap_at).0.len() ==> fitting_line(
                #[trigger] wrap_lines(words, wrap_at).0[i],
                wrap_at,
            ),
        wrap_lines(words, wrap_at).1.len() > 0 ==> fitting_line(wrap_lines(words, wrap_at).1, wrap_at),
    decreases words.len(),
{
    if words.len() > 0 {
        let init = words.drop_last();
        let word = words.last();
        assert(all_words(init)) by {
            assert forall|i: int| 0 <= i < init.len() implies is_word(#[trigger] init[i]) by {
                assert(init[i] == words[i]);
            }
        }
        lemma_wrap_representation(init, wrap_at);
        assert(is_word(words[words.len() - 1]));
        assert(is_word(word));
        let lines = wrap_lines(init, wrap_at).0;
        let line = wrap_lines(init, wrap_at).1;
        assert(' ' == ' ' && is_white_space(' ') && is_white_space('\n') && is_white_space('\r'));
        assert(lacks(word, '\n') && lacks(word, '\r') && lacks(word, ' '));
        if display_width(line) + display_width(word) + 1 > wrap_at {
            if line.len() > 0 {
                assert forall|i: int| 0 <= i < lines.len() implies (#[trigger] lines[i]).len() > 0 by {
                    assert(fitting_line(lines[i], wrap_at));
                }
                lemma_join_push(lines, line);
                let next = lines.push(line);
                assert forall|i: int| 0 <= i < next.len() implies fitting_line(
                    #[trigger] next[i],
                    wrap_at,
                ) by {
                    if i < lines.len() {
                        assert(next[i] == lines[i]);
                    }
                }
            } else {
                assert(Seq::<char>::empty() + line =~= line);
            }
        } else {
            let next = (if line.len() > 0 { line.push(' ') } else { line }) + word;
            if line.len() > 0 {
                lemma_display_width_concat(line.push(' '), word);
                assert(line.push(' ').drop_last() =~= line);
                assert(display_width(line.push(' ')) == display_width(line) + 1);
                assert(lacks(next, '\n') && lacks(next, '\r')) by {
                    assert forall|j: int| 0 <= j < next.len() implies next[j] != '\n' && next[j]
                        != '\r' by {
                        if j < line.len() {
                            assert(next[j] == line[j]);
                        } else if j == line.len() {
                            assert(next[j] == ' ');
                        } else {
                            assert(next[j] == word[j - line.len() - 1]);
                        }
                    }
                }
            } else {
                assert(next =~= word);
            }
        }
    }
}

/// Every line of the wrapped message is nonempty and is either a single word
/// or at most `wrap_at` columns wide.
pub proof fn law_wrapped_lines_fit(text: Seq<char>, wrap_at: nat)
    ensures
        lines_spec(wrap_text(text, wrap_at)) == wrapped_lines(text, wrap_at),
        forall|i: int|
            0 <= i < wrapped_lines(text, wrap_at).len() ==> fitting_line(
                #[trigger] wrapped_lines(text, wrap_at)[i],
                wrap_at,
            ),
{
    let words = split_whitespace_spec(text);
    lemma_words_are_words(text, seq![], seq![]);
    lemma_wrap_representation(words, wrap_at);
    let lines = wrap_lines(words, wrap_at).0;
    let line = wrap_lines(words, wrap_at).1;
    let all = wrapped_lines(text, wrap_at);
    assert forall|i: int| 0 <= i < all.len() implies fitting_line(#[trigger] all[i], wrap_at) by {
        if i < lines.len() {
            assert(all[i] == lines[i]);
        }
    }
    if line.len() > 0 {
        assert forall|i: int| 0 <= i < lines.len() implies (#[trigger] lines[i]).len() > 0 by {
            assert(fitting_line(lines[i], wrap_at));
        }
        lemma_join_push(lines, line);
    }
    assert(wrap_text(text, wrap_at) == join_lines(all));
    assert forall|i: int| 0 <= i < all.len() implies (#[trigger] all[i]).len() > 0 && !all[i].contains(
        '\n',
    ) && !all[i].contains('\r') by {
        assert(fitting_line(all[i], wrap_at));
    }
    lemma_lines_of_join(all);
}

/// Reading characters that are not white space only extends the current word.
proof fn lemma_words_within_word(x: Seq<char>, y: Seq<char>, word: Seq<char>, words: Seq<Seq<char>>)
    requires
        forall|j: int| 0 <= j < x.len() ==> !is_white_space(#[trigger] x[j]),
    ensures
        words_from(x + y, word, words) == words_from(y, word + x, words),
    decreases x.len(),
{
    if x.len() == 0 {
        assert(x + y =~= y);
        assert(word + x =~= word);
    } else {
        assert((x + y)[0] == x[0]);
        assert((x + y).drop_first() =~= x.drop_first() + y);
        assert(word.push(x[0]) + x.drop_first() =~= word + x);
        assert forall|j: int| 0 <= j < x.drop_first().len() implies !is_white_space(
            #[trigger] x.drop_first()[j],
        ) by {
            assert(x.drop_first()[j] == x[j + 1]);
        }
        lemma_words_within_word(x.drop_first(), y, word.push(x[0]), words);
    }
}

/// The whole text of a wrapping state: the wrapped text and the line being
/// filled, on a line of its own.
pub open spec fn wrap_state_text(state: (Seq<char>, Seq<char>)) -> Seq<char> {
    if state.1.len() > 0 {
        (if state.0.len() > 0 { state.0.push('\n') } else { state.0 }) + state.1
    } else {
        state.0
    }
}

/// The text of a wrapping state splits into the words wrapped so far.
proof fn lemma_wrap_state_words(
    words: Seq<Seq<char>>,
    wrap_at: nat,
    rest: Seq<char>,
    acc: Seq<Seq<char>>,
)
    requires
        all_words(words),
        words.len() > 0,
    ensures
        wrap_words(words, wrap_at).1.len() > 0,
        words_from(wrap_state_text(wrap_words(words, wrap_at)) + rest, seq![], acc) == words_from(
            rest,
            words.last(),
            acc + words.drop_last(),
        ),
    decreases words.len(),
{
    let init = words.drop_last();
    let word = words.last();
    assert(is_word(words[words.len() - 1]));
    let state = wrap_words(init, wrap_at);
    let w = state.0;
    let l = state.1;
    let next = wrap_words(words, wrap_at);
    if init.len() == 0 {
        assert(state == (Seq::<char>::empty(), Seq::<char>::empty()));
        assert(Seq::<char>::empty() + word =~= word);
        assert(wrap_state_text(next) == word);
        lemma_words_within_word(word, rest, seq![], acc);
        assert(Seq::<char>::empty() + word =~= word);
        assert(acc + words.drop_last() =~= acc);
    } else {
        assert(all_words(init)) by {
            assert forall|i: int| 0 <= i < init.len() implies is_word(#[trigger] init[i]) by {
                assert(init[i] == words[i]);
            }
        }
        lemma_wrap_state_words(init, wrap_at, seq![], seq![]);
        let prev_text = wrap_state_text(state);
        let sep = if display_width(l) + display_width(word) + 1 > wrap_at {
            '\n'
        } else {
            ' '
        };
        assert(is_white_space(sep));
        if sep == '\n' {
            assert(next.0 == (if w.len() > 0 { w.push('\n') } else { w }) + l);
            assert(wrap_state_text(next) =~= prev_text + seq![sep] + word);
        } else {
            assert(wrap_state_text(next) =~= prev_text + seq![sep] + word);
        }
        let rest2 = seq![sep] + word + rest;
        assert(wrap_state_text(next) + rest =~= prev_text + rest2);
        lemma_wrap_state_words(init, wrap_at, rest2, acc);
        let prev_word = init.last();
        assert(is_word(init[init.len() - 1]));
        assert(rest2[0] == sep);
        assert(rest2.drop_first() =~= word + rest);
        lemma_words_within_word(word, rest, seq![], acc + init.drop_last().push(prev_word));
        assert(Seq::<char>::empty() + word =~= word);
        assert(acc + init.drop_last().push(prev_word) =~= acc + words.drop_last());
    }
}

/// Wrapping neither loses, adds nor reorders a word: the wrapped message has
/// the same words as the message.
pub proof fn law_wrapping_keeps_words(text: Seq<char>, wrap_at: nat)
    ensures
        split_whitespace_spec(wrap_text(text, wrap_at)) == split_whitespace_spec(text),
{
    let words = split_whitespace_spec(text);
    lemma_words_are_words(text, seq![], seq![]);
    assert(wrap_text(text, wrap_at) == wrap_state_text(wrap_words(words, wrap_at)));
    if words.len() > 0 {
        lemma_wrap_state_words(words, wrap_at, seq![], seq![]);
        assert(wrap_text(text, wrap_at) + Seq::<char>::empty() =~= wrap_text(text, wrap_at));
        assert(is_word(words[words.len() - 1]));
        assert(Seq::<Seq<char>>::empty() + words.drop_last() =~= words.drop_last());
        assert(words.drop_last().push(words.last()) =~= words);
    } else {
        assert(wrap_words(words, wrap_at) == (Seq::<char>::empty(), Seq::<char>::empty()));
    }
}

/// The word that starts the line being filled.
pub open spec fn wrap_head(words: Seq<Seq<char>>, wrap_at: nat) -> Seq<char>
    decreases words.len(),
{
    if words.len() == 0 {
        seq![]
    } else {
        let line = wrap_lines(words.drop_last(), wrap_at).1;
        if line.len() == 0 || display_width(line) + display_width(words.last()) + 1 > wrap_at {
            words.last()
        } else {
            wrap_head(words.drop_last(), wrap_at)
        }
    }
}

/// The words found after a first complete word keep it first.
proof fn lemma_words_keep_first(s: Seq<char>, word: Seq<char>, words: Seq<Seq<char>>)
    requires
        words.len() > 0,
    ensures
        words_from(s, word, words).len() > 0,
        words_from(s, word, words)[0] == words[0],
    decreases s.len(),
{
    if s.len() > 0 {
        if is_white_space(s[0]) {
            let next = if word.len() > 0 {
                words.push(word)
            } else {
                words
            };
            lemma_words_keep_first(s.drop_first(), seq![], next);
        } else {
            lemma_words_keep_first(s.drop_first(), word.push(s[0]), words);
        }
    }
}

/// A line that starts with a word followed by nothing or a space has that
/// word as its first word.
proof fn lemma_first_word(line: Seq<char>, head: Seq<char>)
    requires
        is_word(head),
        head.len() <= line.len(),
        line.take(head.len() as int) == head,
        line.len() == head.len() || line[head.len() as int] == ' ',
    ensures
        split_whitespace_spec(line).len() > 0,
        split_whitespace_spec(line)[0] == head,
{
    let rest = line.skip(head.len() as int);
    assert(line =~= head + rest);
    lemma_words_within_word(head, rest, seq![], seq![]);
    assert(Seq::<char>::empty() + head =~= head);
    if rest.len() == 0 {
        assert(words_from(rest, head, seq![]) == seq![head]);
    } else {
        assert(rest[0] == ' ');
        assert(is_white_space(' '));
        lemma_words_keep_first(rest.drop_first(), seq![], seq![head]);
    }
}

/// Whether `next` could not have joined `line`: its first word, after a
/// space, would have made `line` wider than `wrap_at`.
pub open spec fn broken_before(line: Seq<char>, next: Seq<char>, wrap_at: nat) -> bool {
    display_width(line) + display_width(split_whitespace_spec(next)[0]) + 1 > wrap_at
}

/// The wrapping keeps the line being filled headed by its first word, and
/// breaks only where the next word would not fit.
proof fn lemma_wrap_greedy(words: Seq<Seq<char>>, wrap_at: nat)
    requires
        all_words(words),
    ensures
        ({
            let lines = wrap_lines(words, wrap_at).0;
            let line = wrap_lines(words, wrap_at).1;
            let head = wrap_head(words, wrap_at);
            &&& words.len() > 0 ==> line.len() > 0
            &&& line.len() > 0 ==> {
                &&& is_word(head)
                &&& head.len() <= line.len()
                &&& line.take(head.len() as int) == head
                &&& (line.len() == head.len() || line[head.len() as int] == ' ')
            }
            &&& lines.len() > 0 && line.len() > 0 ==> display_width(lines.last())
                + display_width(head) + 1 > wrap_at
            &&& forall|i: int|
                0 <= i < lines.len() - 1 ==> broken_before(
                    #[trigger] lines[i],
                    lines[i + 1],
                    wrap_at,
                )
        }),
    decreases words.len(),
{
    if words.len() > 0 {
        let init = words.drop_last();
        let word = words.last();
        assert(all_words(init)) by {
            assert forall|i: int| 0 <= i < init.len() implies is_word(#[trigger] init[i]) by {
                assert(init[i] == words[i]);
            }
        }
        assert(is_word(words[words.len() - 1]));
        lemma_wrap_greedy(init, wrap_at);
        lemma_wrap_representation(init, wrap_at);
        let lines = wrap_lines(init, wrap_at).0;
        let line = wrap_lines(init, wrap_at).1;
        let head = wrap_head(init, wrap_at);
        let next_lines = wrap_lines(words, wrap_at).0;
        let next_line = wrap_lines(words, wrap_at).1;
        assert(word.take(word.len() as int) =~= word);
        if display_width(line) + display_width(word) + 1 > wrap_at {
            assert(next_line == word);
            if line.len() > 0 {
                lemma_first_word(line, head);
                assert(next_lines == lines.push(line));
                assert forall|i: int| 0 <= i < next_lines.len() - 1 implies broken_before(
                    #[trigger] next_lines[i],
                    next_lines[i + 1],
                    wrap_at,
                ) by {
                    if i < lines.len() - 1 {
                        assert(next_lines[i] == lines[i] && next_lines[i + 1] == lines[i + 1]);
                    } else {
                        assert(next_lines[i] == lines.last() && next_lines[i + 1] == line);
                    }
                }
            }
        } else if line.len() == 0 {
            assert(next_line =~= word);
        } else {
            let next = line.push(' ') + word;
            assert(next_line == next);
            assert(wrap_head(words, wrap_at) == head);
            assert(next.take(head.len() as int) =~= line.take(head.len() as int));
            if line.len() == head.len() {
                assert(next[head.len() as int] == ' ');
            } else {
                assert(next[head.len() as int] == line[head.len() as int]);
            }
        }
    }
}

/// The wrapping is greedy: each line break stands where the first word of
/// the next line, after a space, would have made the line wider than
/// `wrap_at`.
pub proof fn law_wrapping_greedy(text: Seq<char>, wrap_at: nat)
    ensures
        forall|i: int|
            0 <= i < wrapped_lines(text, wrap_at).len() - 1 ==> broken_before(
                #[trigger] wrapped_lines(text, wrap_at)[i],
                wrapped_lines(text, wrap_at)[i + 1],
                wrap_at,
            ),
{
    let words = split_whitespace_spec(text);
    lemma_words_are_words(text, seq![], seq![]);
    lemma_wrap_greedy(words, wrap_at);
    let lines = wrap_lines(words, wrap_at).0;
    let line = wrap_lines(words, wrap_at).1;
    let head = wrap_head(words, wrap_at);
    let all = wrapped_lines(text, wrap_at);
    if line.len() > 0 {
        lemma_first_word(line, head);
        assert forall|i: int| 0 <= i < all.len() - 1 implies broken_before(
            #[trigger] all[i],
            all[i + 1],
            wrap_at,
        ) by {
            if i < lines.len() - 1 {
                assert(all[i] == lines[i] && all[i + 1] == lines[i + 1]);
            } else {
                assert(all[i] == lines.last() && all[i + 1] == line);
            }
        }
    }
}

/// Every line of a bubble around several lines is equally wide: the widest
/// line plus the two borders and their spaces, before its line feed.
pub proof fn law_bubble_rows_equal_width(lines: Seq<Seq<char>>, i: int)
    requires
        0 <= i < lines.len(),
    ensures
        display_width(bubble_row(lines, max_width(lines), i).drop_last()) == max_width(lines) + 4,
{
    let width = max_width(lines);
    lemma_max_width_bounds(lines, i);
    let line = lines[i];
    let pad = repeated(' ', (width - display_width(line)) as nat);
    lemma_display_width_repeated(' ', (width - display_width(line)) as nat);
    let row = bubble_row(lines, width, i);
    let left = if i == 0 {
        seq!['/', ' ']
    } else if i == lines.len() - 1 {
        seq!['\\', ' ']
    } else {
        seq!['|', ' ']
    };
    let right = if i == 0 {
        seq![' ', '\\']
    } else if i == lines.len() - 1 {
        seq![' ', '/']
    } else {
        seq![' ', '|']
    };
    assert(row.drop_last() =~= left + line + pad + right);
    lemma_display_width_concat(left + line + pad, right);
    lemma_display_width_concat(left + line, pad);
    lemma_display_width_concat(left, line);
    lemma_display_width_pair(left[0], left[1]);
    lemma_display_width_pair(right[0], right[1]);
    assert(left =~= seq![left[0], left[1]]);
    assert(right =~= seq![right[0], right[1]]);
}

/// Two ASCII characters take two columns.
proof fn lemma_display_width_pair(a: char, b: char)
    requires
        (a as u32) < 0x80,
        (b as u32) < 0x80,
    ensures
        display_width(seq![a, b]) == 2,
{
    let ab = seq![a, b];
    let just_a = seq![a];
    assert(ab.drop_last() =~= just_a);
    assert(ab.last() == b);
    assert(just_a.drop_last() =~= Seq::<char>::empty());
    assert(just_a.last() == a);
    assert(display_width(Seq::<char>::empty()) == 0);
    assert(display_width(just_a) == 1);
    assert(display_width(ab) == display_width(just_a) + column_width(b));
}

} // verus!
