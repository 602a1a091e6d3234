//! Character-level text utilities with exact specifications.

use vstd::prelude::*;

verus! {

/// `String::push` appends one character.
pub assume_specification[ String::push ](s: &mut String, ch: char)
    ensures
        final(s)@ == old(s)@.push(ch),
;

/// The character of a decimal digit.
pub open spec fn digit_char(d: nat) -> char {
    ((48 + d) as char)
}

/// The decimal representation of a natural number, without leading zeros.
pub open spec fn decimal(n: nat) -> Seq<char>
    decreases n,
{
    if n < 10 {
        seq![digit_char(n)]
    } else {
        decimal(n / 10).push(digit_char(n % 10))
    }
}

/// The number that a text of decimal digits denotes.
pub open spec fn digits_value(s: Seq<char>) -> nat
    decreases s.len(),
{
    if s.len() == 0 {
        0
    } else {
        digits_value(s.drop_last()) * 10 + ((s.last() as nat) - 48) as nat
    }
}

/// The decimal representation of `n` is made of digits, has no leading
/// zero unless it is `0` itself, and denotes `n`.
pub proof fn law_decimal_denotes(n: nat)
    ensures
        decimal(n).len() > 0,
        forall|i: int| 0 <= i < decimal(n).len() ==> '0' <= #[trigger] decimal(n)[i] <= '9',
        decimal(n)[0] == '0' ==> n == 0,
        digits_value(decimal(n)) == n,
    decreases n,
{
    if n >= 10 {
        law_decimal_denotes(n / 10);
        let d = decimal(n / 10);
        let e = decimal(n);
        assert(e == d.push(digit_char(n % 10)));
        assert(e.drop_last() =~= d);
        assert forall|i: int| 0 <= i < e.len() implies '0' <= #[trigger] e[i] <= '9' by {
            if i < d.len() {
                assert(e[i] == d[i]);
            }
        }
        assert(e[0] == d[0]);
        assert(n / 10 > 0);
        assert((n / 10) * 10 + n % 10 == n) by (nonlinear_arith);
        assert(digit_char(n % 10) as nat == 48 + n % 10);
        assert(e.last() == digit_char(n % 10));
        assert(digits_value(e) == digits_value(d) * 10 + n % 10);
    } else {
        assert(digit_char(n) as nat == 48 + n);
        assert(decimal(n).drop_last() =~= Seq::<char>::empty());
        assert(decimal(n).last() == digit_char(n));
        assert(digits_value(decimal(n)) == digits_value(Seq::<char>::empty()) * 10 + n);
    }
}

/// The character of the digit `d`.
pub fn digit_to_char(d: u8) -> (c: char)
    requires
        d < 10,
    ensures
        c == digit_char(d as nat),
{
    (48u8 + d) as char
}

/// Appends the decimal representation of `n` to `out`.
pub fn push_decimal(out: &mut String, n: u128)
    ensures
        final(out)@ == old(out)@ + decimal(n as nat),
    decreases n,
{
    if n >= 10 {
        push_decimal(out, n / 10);
    }
    let d = (n % 10) as u8;
    out.push(digit_to_char(d));
    proof {
        if n < 10 {
            assert(old(out)@ + decimal(n as nat) =~= old(out)@.push(digit_char(n as nat)));
        } else {
            assert(old(out)@ + decimal(n as nat) =~= (old(out)@ + decimal((n / 10) as nat)).push(
                digit_char((n % 10) as nat),
            ));
        }
    }
}

/// The decimal representation of `n` as a string.
pub fn decimal_string(n: u128) -> (s: String)
    ensures
        s@ == decimal(n as nat),
{
    let mut s = String::new();
    push_decimal(&mut s, n);
    proof {
        assert(s@ =~= decimal(n as nat));
    }
    s
}

/// The Unicode `White_Space` property, which `char::is_whitespace` tests.
pub open spec fn is_white_space(c: char) -> bool {
    let u = c as u32;
    ||| 0x09 <= u <= 0x0D
    ||| u == 0x20
    ||| u == 0x85
    ||| u == 0xA0
    ||| u == 0x1680
    ||| 0x2000 <= u <= 0x200A
    ||| u == 0x2028
    ||| u == 0x2029
    ||| u == 0x202F
    ||| u == 0x205F
    ||| u == 0x3000
}

/// Whether `c` is white space in the sense of `char::is_whitespace`.
pub fn is_whitespace(c: char) -> (b: bool)
    ensures
        b == is_white_space(c),
{
    let u = c as u32;
    (0x09 <= u && u <= 0x0D) || u == 0x20 || u == 0x85 || u == 0xA0 || u == 0x1680 || (0x2000
        <= u && u <= 0x200A) || u == 0x2028 || u == 0x2029 || u == 0x202F || u == 0x205F || u
        == 0x3000
}

/// The characters of a string slice.
pub fn chars_of(s: &str) -> (v: Vec<char>)
    ensures
        v@ == s@,
{
    let mut v: Vec<char> = Vec::new();
    for c in it: s.chars()
        invariant
            it.seq() == s@,
            v@ == it.seq().take(it.index() as int),
            v.len() == it.index(),
    {
        proof {
            assert(it.seq().take(it.index() + 1) =~= it.seq().take(it.index() as int).push(c));
        }
        v.push(c);
    }
    proof {
        assert(s@.take(s@.len() as int) =~= s@);
    }
    v
}

/// Appends characters to a string.
pub fn push_chars(out: &mut String, chars: &Vec<char>)
    ensures
        final(out)@ == old(out)@ + chars@,
{
    let mut i: usize = 0;
    while i < chars.len()
        invariant
            i <= chars.len(),
            out@ == old(out)@ + chars@.take(i as int),
        decreases chars.len() - i,
    {
        proof {
            assert(chars@.take(i + 1) =~= chars@.take(i as int).push(chars@[i as int]));
        }
        out.push(chars[i]);
        i = i + 1;
    }
    proof {
        assert(chars@.take(chars.len() as int) =~= chars@);
    }
}

/// The string made of the given characters.
pub fn string_of(chars: &Vec<char>) -> (s: String)
    ensures
        s@ == chars@,
{
    let mut s = String::new();
    push_chars(&mut s, chars);
    proof {
        assert(s@ =~= chars@);
    }
    s
}

/// Appends `count` copies of `c`.
pub fn push_repeated(out: &mut String, c: char, count: u128)
    ensures
        final(out)@ == old(out)@ + Seq::new(count as nat, |i: int| c),
{
    let mut i: u128 = 0;
    while i < count
        invariant
            i <= count,
            out@ == old(out)@ + Seq::new(i as nat, |j: int| c),
        decreases count - i,
    {
        proof {
            assert(Seq::new((i + 1) as nat, |j: int| c) =~= Seq::new(i as nat, |j: int| c).push(c));
        }
        out.push(c);
        i = i + 1;
    }
}

/// The words of `s`: its maximal runs of non-white-space characters, in order,
/// as `str::split_whitespace` yields them.  `word` is the run being read and
/// `words` those already complete.
pub open spec fn words_from(s: Seq<char>, word: Seq<char>, words: Seq<Seq<char>>) -> Seq<Seq<char>>
    decreases s.len(),
{
    if s.len() == 0 {
        if word.len() > 0 {
            words.push(word)
        } else {
            words
        }
    } else if is_white_space(s[0]) {
        words_from(s.drop_first(), seq![], if word.len() > 0 { words.push(word) } else { words })
    } else {
        words_from(s.drop_first(), word.push(s[0]), words)
    }
}

/// The white-space separated words of `s`.
pub open spec fn split_whitespace_spec(s: Seq<char>) -> Seq<Seq<char>> {
    words_from(s, seq![], seq![])
}

/// The view of a vector of character vectors.
pub open spec fn char_rows(v: Seq<Vec<char>>) -> Seq<Seq<char>> {
    v.map_values(|w: Vec<char>| w@)
}

/// The white-space separated words of `s`, as `str::split_whitespace` yields them.
pub fn split_whitespace(s: &Vec<char>) -> (words: Vec<Vec<char>>)
    ensures
        char_rows(words@) == split_whitespace_spec(s@),
{
    let mut words: Vec<Vec<char>> = Vec::new();
    let mut word: Vec<char> = Vec::new();
    let mut i: usize = 0;
    proof {
        assert(s@.skip(0) =~= s@);
        assert(char_rows(words@) =~= Seq::<Seq<char>>::empty());
        assert(word@ =~= Seq::<char>::empty());
    }
    while i < s.len()
        invariant
            i <= s.len(),
            split_whitespace_spec(s@) == words_from(s@.skip(i as int), word@, char_rows(words@)),
        decreases s.len() - i,
    {
        let c = s[i];
        proof {
            assert(s@.skip(i as int)[0] == c);
            assert(s@.skip(i as int).drop_first() =~= s@.skip(i + 1));
        }
        if is_whitespace(c) {
            if word.len() > 0 {
                let done = word;
                proof {
                    assert(char_rows(words@.push(done)) =~= char_rows(words@).push(done@));
                }
                words.push(done);
            }
            word = Vec::new();
            proof {
                assert(word@ =~= seq![]);
            }
        } else {
            word.push(c);
        }
        i = i + 1;
    }
    if word.len() > 0 {
        proof {
            assert(char_rows(words@.push(word)) =~= char_rows(words@).push(word@));
        }
        words.push(word);
    }
    words
}

/// `s` with every occurrence of three back-quotes removed, scanning from the
/// left as `str::replace(s, "```", "")` does.
pub open spec fn remove_fences(s: Seq<char>) -> Seq<char>
    decreases s.len(),
{
    if s.len() == 0 {
        seq![]
    } else if s.len() >= 3 && s[0] == '`' && s[1] == '`' && s[2] == '`' {
        remove_fences(s.skip(3))
    } else {
        seq![s[0]] + remove_fences(s.skip(1))
    }
}

/// Removes every occurrence of three back-quotes, left to right.
pub fn strip_fences(s: &Vec<char>) -> (r: Vec<char>)
    ensures
        r@ == remove_fences(s@),
{
    let mut r: Vec<char> = Vec::new();
    let mut i: usize = 0;
    proof {
        assert(s@.skip(0) =~= s@);
        assert(r@ + remove_fences(s@) =~= remove_fences(s@));
    }
    while i < s.len()
        invariant
            i <= s.len(),
            remove_fences(s@) == r@ + remove_fences(s@.skip(i as int)),
        decreases s.len() - i,
    {
        let rest = Ghost(s@.skip(i as int));
        if s.len() - i >= 3 && s[i] == '`' && s[i + 1] == '`' && s[i + 2] == '`' {
            proof {
                assert(rest@.skip(3) =~= s@.skip(i + 3));
            }
            i = i + 3;
        } else {
            proof {
                assert(rest@.skip(1) =~= s@.skip(i + 1));
                assert(r@.push(s@[i as int]) + remove_fences(s@.skip(i + 1)) =~= r@ + (seq![
                    s@[i as int],
                ] + remove_fences(s@.skip(i + 1))));
            }
            r.push(s[i]);
            i = i + 1;
        }
    }
    proof {
        assert(r@ + remove_fences(s@.skip(i as int)) =~= r@);
    }
    r
}

/// `line` without one trailing carriage return.
pub open spec fn strip_carriage_return(line: Seq<char>) -> Seq<char> {
    if line.len() > 0 && line.last() == '\r' {
        line.drop_last()
    } else {
        line
    }
}

/// The lines of `s` as `str::lines` yields them: split after each line feed,
/// the line feed and a carriage return before it removed, and no final empty
/// line.  `line` is the line being read and `lines` those already complete.
pub open spec fn lines_from(s: Seq<char>, line: Seq<char>, lines: Seq<Seq<char>>) -> Seq<Seq<char>>
    decreases s.len(),
{
    if s.len() == 0 {
        if line.len() > 0 {
            lines.push(line)
        } else {
            lines
        }
    } else if s[0] == '\n' {
        lines_from(s.drop_first(), seq![], lines.push(strip_carriage_return(line)))
    } else {
        lines_from(s.drop_first(), line.push(s[0]), lines)
    }
}

/// The lines of `s`, as `str::lines` yields them.
pub open spec fn lines_spec(s: Seq<char>) -> Seq<Seq<char>> {
    lines_from(s, seq![], seq![])
}

/// The lines of `s`, as `str::lines` yields them.
pub fn split_lines(s: &Vec<char>) -> (lines: Vec<Vec<char>>)
    ensures
        char_rows(lines@) == lines_spec(s@),
{
    let mut lines: Vec<Vec<char>> = Vec::new();
    let mut line: Vec<char> = Vec::new();
    let mut i: usize = 0;
    proof {
        assert(s@.skip(0) =~= s@);
        assert(char_rows(lines@) =~= Seq::<Seq<char>>::empty());
        assert(line@ =~= Seq::<char>::empty());
    }
    while i < s.len()
        invariant
            i <= s.len(),
            lines_spec(s@) == lines_from(s@.skip(i as int), line@, char_rows(lines@)),
        decreases s.len() - i,
    {
        let c = s[i];
        proof {
            assert(s@.skip(i as int)[0] == c);
            assert(s@.skip(i as int).drop_first() =~= s@.skip(i + 1));
        }
        if c == '\n' {
            let mut done = line;
            if done.len() > 0 && done[done.len() - 1] == '\r' {
                done.pop();
            }
            proof {
                assert(char_rows(lines@.push(done)) =~= char_rows(lines@).push(done@));
            }
            lines.push(done);
            line = Vec::new();
            proof {
                assert(line@ =~= seq![]);
            }
        } else {
            line.push(c);
        }
        i = i + 1;
    }
    if line.len() > 0 {
        proof {
            assert(char_rows(lines@.push(line)) =~= char_rows(lines@).push(line@));
        }
        lines.push(line);
    }
    lines
}

/// The pieces of `s` between occurrences of `sep`, as `str::split` yields
/// them for a character pattern (empty pieces included; one piece for an
/// empty text).  `piece` is the piece being read and `pieces` those complete.
pub open spec fn pieces_from(s: Seq<char>, sep: char, piece: Seq<char>, pieces: Seq<Seq<char>>) -> Seq<
    Seq<char>,
>
    decreases s.len(),
{
    if s.len() == 0 {
        pieces.push(piece)
    } else if s[0] == sep {
        pieces_from(s.drop_first(), sep, seq![], pieces.push(piece))
    } else {
        pieces_from(s.drop_first(), sep, piece.push(s[0]), pieces)
    }
}

/// The pieces of `s` separated by `sep`.
pub open spec fn split_spec(s: Seq<char>, sep: char) -> Seq<Seq<char>> {
    pieces_from(s, sep, seq![], seq![])
}

/// Once a piece is complete, reading on never changes it.
proof fn lemma_pieces_keep_first(s: Seq<char>, sep: char, piece: Seq<char>, pieces: Seq<Seq<char>>)
    requires
        pieces.len() > 0,
    ensures
        pieces_from(s, sep, piece, pieces).len() > 0,
        pieces_from(s, sep, piece, pieces)[0] == pieces[0],
    decreases s.len(),
{
    if s.len() > 0 {
        if s[0] == sep {
            lemma_pieces_keep_first(s.drop_first(), sep, seq![], pieces.push(piece));
        } else {
            lemma_pieces_keep_first(s.drop_first(), sep, piece.push(s[0]), pieces);
        }
    }
}

/// The first piece is the piece being read followed by the text up to the
/// first separator, or up to the end when there is none.
proof fn lemma_first_piece(s: Seq<char>, sep: char, piece: Seq<char>)
    ensures
        pieces_from(s, sep, piece, seq![]).len() > 0,
        ({
            let p = pieces_from(s, sep, piece, seq![])[0];
            let k = p.len() - piece.len();
            0 <= k <= s.len() && p == piece + s.take(k) && !s.take(k).contains(sep) && (k < s.len()
                ==> s[k] == sep)
        }),
    decreases s.len(),
{
    if s.len() == 0 {
        assert(s.take(0) =~= Seq::<char>::empty());
        assert(piece + s.take(0) =~= piece);
    } else if s[0] == sep {
        lemma_pieces_keep_first(s.drop_first(), sep, seq![], seq![piece]);
        assert(s.take(0) =~= Seq::<char>::empty());
        assert(piece + s.take(0) =~= piece);
    } else {
        let rest = s.drop_first();
        lemma_first_piece(rest, sep, piece.push(s[0]));
        let p = pieces_from(rest, sep, piece.push(s[0]), seq![])[0];
        let k = p.len() - piece.len() - 1;
        assert(s.take(k + 1) =~= seq![s[0]] + rest.take(k));
        assert(piece + s.take(k + 1) =~= piece.push(s[0]) + rest.take(k));
        let t = s.take(k + 1);
        assert(!t.contains(sep)) by {
            if t.contains(sep) {
                let j = choose|j: int| 0 <= j < t.len() && t[j] == sep;
                assert(j != 0);
                assert(rest.take(k)[j - 1] == sep);
            }
        }
        if k + 1 < s.len() {
            assert(s[k + 1] == rest[k]);
        }
    }
}

/// The first piece of a split is the text up to the first separator (the
/// whole text when it has none): a prefix of the text that holds no
/// separator and is followed by one or by the end.
pub proof fn law_split_first_piece(s: Seq<char>, sep: char)
    ensures
        split_spec(s, sep).len() > 0,
        split_spec(s, sep)[0].len() <= s.len(),
        split_spec(s, sep)[0] == s.take(split_spec(s, sep)[0].len() as int),
        !split_spec(s, sep)[0].contains(sep),
        split_spec(s, sep)[0].len() < s.len() ==> s[split_spec(s, sep)[0].len() as int] == sep,
{
    lemma_first_piece(s, sep, seq![]);
    let p = split_spec(s, sep)[0];
    assert(Seq::<char>::empty() + s.take(p.len() as int) =~= s.take(p.len() as int));
}

/// Texts joined with `sep` between consecutive ones.
pub open spec fn join_with(parts: Seq<Seq<char>>, sep: char) -> Seq<char>
    decreases parts.len(),
{
    if parts.len() == 0 {
        seq![]
    } else if parts.len() == 1 {
        parts[0]
    } else {
        join_with(parts.drop_last(), sep) + seq![sep] + parts.last()
    }
}

/// Reading on from a state joins back to what was read plus what is left.
proof fn lemma_pieces_rejoin(s: Seq<char>, sep: char, piece: Seq<char>, pieces: Seq<Seq<char>>)
    requires
        !piece.contains(sep),
        forall|i: int| 0 <= i < pieces.len() ==> !(#[trigger] pieces[i]).contains(sep),
    ensures
        join_with(pieces_from(s, sep, piece, pieces), sep) == join_with(pieces.push(piece), sep) + s,
        forall|i: int|
            0 <= i < pieces_from(s, sep, piece, pieces).len() ==> !(#[trigger] pieces_from(
                s,
                sep,
                piece,
                pieces,
            )[i]).contains(sep),
    decreases s.len(),
{
    let done = pieces.push(piece);
    assert forall|i: int| 0 <= i < done.len() implies !(#[trigger] done[i]).contains(sep) by {
        if i < pieces.len() {
            assert(done[i] == pieces[i]);
        }
    }
    if s.len() == 0 {
        assert(join_with(done, sep) + s =~= join_with(done, sep));
    } else if s[0] == sep {
        let empty = Seq::<char>::empty();
        assert(!empty.contains(sep));
        lemma_pieces_rejoin(s.drop_first(), sep, empty, done);
        assert(done.push(empty).drop_last() =~= done);
        assert(join_with(done.push(empty), sep) + s.drop_first() =~= join_with(done, sep) + s);
    } else {
        let next = piece.push(s[0]);
        assert(!next.contains(sep)) by {
            if next.contains(sep) {
                let j = choose|j: int| 0 <= j < next.len() && next[j] == sep;
                assert(j < piece.len());
                assert(piece[j] == sep);
            }
        }
        lemma_pieces_rejoin(s.drop_first(), sep, next, pieces);
        assert(pieces.push(next).drop_last() =~= pieces);
        assert(done.drop_last() =~= pieces);
        assert(join_with(pieces.push(next), sep) + s.drop_first() =~= join_with(done, sep) + s);
    }
}

/// Splitting a text at a separator gives pieces that hold no separator and
/// that, joined back with the separator, give the text again.
pub proof fn law_split_rejoins(s: Seq<char>, sep: char)
    ensures
        join_with(split_spec(s, sep), sep) == s,
        forall|i: int| 0 <= i < split_spec(s, sep).len() ==> !(#[trigger] split_spec(s, sep)[i]).contains(
            sep,
        ),
{
    let empty = Seq::<char>::empty();
    assert(!empty.contains(sep));
    lemma_pieces_rejoin(s, sep, empty, seq![]);
    assert(seq![empty] =~= Seq::<Seq<char>>::empty().push(empty));
    assert(join_with(seq![empty], sep) + s =~= s);
}

/// The pieces of `s` separated by `sep`, as `str::split` yields them.
pub fn split_on(s: &Vec<char>, sep: char) -> (pieces: Vec<Vec<char>>)
    ensures
        char_rows(pieces@) == split_spec(s@, sep),
        pieces.len() >= 1,
{
    let mut pieces: Vec<Vec<char>> = Vec::new();
    let mut piece: Vec<char> = Vec::new();
    let mut i: usize = 0;
    proof {
        assert(s@.skip(0) =~= s@);
        assert(char_rows(pieces@) =~= Seq::<Seq<char>>::empty());
        assert(piece@ =~= Seq::<char>::empty());
    }
    while i < s.len()
        invariant
            i <= s.len(),
            split_spec(s@, sep) == pieces_from(s@.skip(i as int), sep, piece@, char_rows(pieces@)),
        decreases s.len() - i,
    {
        let c = s[i];
        proof {
            assert(s@.skip(i as int)[0] == c);
            assert(s@.skip(i as int).drop_first() =~= s@.skip(i + 1));
        }
        if c == sep {
            let done = piece;
            proof {
                assert(char_rows(pieces@.push(done)) =~= char_rows(pieces@).push(done@));
            }
            pieces.push(done);
            piece = Vec::new();
            proof {
                assert(piece@ =~= seq![]);
            }
        } else {
            piece.push(c);
        }
        i = i + 1;
    }
    proof {
        assert(char_rows(pieces@.push(piece)) =~= char_rows(pieces@).push(piece@));
    }
    pieces.push(piece);
    pieces
}

/// `s` without its leading characters satisfying `is_white_space`.
pub open spec fn trim_start_spec(s: Seq<char>) -> Seq<char>
    decreases s.len(),
{
    if s.len() > 0 && is_white_space(s[0]) {
        trim_start_spec(s.drop_first())
    } else {
        s
    }
}

/// `s` without its trailing white space.
pub open spec fn trim_end_spec(s: Seq<char>) -> Seq<char>
    decreases s.len(),
{
    if s.len() > 0 && is_white_space(s.last()) {
        trim_end_spec(s.drop_last())
    } else {
        s
    }
}

/// `s` without leading and trailing white space, as `str::trim` gives it.
pub open spec fn trim_spec(s: Seq<char>) -> Seq<char> {
    trim_end_spec(trim_start_spec(s))
}

/// `s` without the leading and trailing copies of `c`, as `str::trim_matches` gives it.
pub open spec fn trim_char_spec(s: Seq<char>, c: char) -> Seq<char> {
    strip_end_char(strip_start_char(s, c), c)
}

/// `s` without its leading copies of `c`.
pub open spec fn strip_start_char(s: Seq<char>, c: char) -> Seq<char>
    decreases s.len(),
{
    if s.len() > 0 && s[0] == c {
        strip_start_char(s.drop_first(), c)
    } else {
        s
    }
}

/// `s` without its trailing copies of `c`.
pub open spec fn strip_end_char(s: Seq<char>, c: char) -> Seq<char>
    decreases s.len(),
{
    if s.len() > 0 && s.last() == c {
        strip_end_char(s.drop_last(), c)
    } else {
        s
    }
}

proof fn lemma_strip_start_char(s: Seq<char>, c: char)
    ensures
        strip_start_char(s, c).len() <= s.len(),
        strip_start_char(s, c) == s.skip(s.len() - strip_start_char(s, c).len()),
        forall|i: int| 0 <= i < s.len() - strip_start_char(s, c).len() ==> s[i] == c,
        strip_start_char(s, c).len() > 0 ==> strip_start_char(s, c)[0] != c,
    decreases s.len(),
{
    if s.len() > 0 && s[0] == c {
        lemma_strip_start_char(s.drop_first(), c);
        let r = strip_start_char(s, c);
        assert(s.drop_first().skip(s.len() - 1 - r.len()) =~= s.skip(s.len() - r.len()));
        assert forall|i: int| 0 <= i < s.len() - r.len() implies s[i] == c by {
            if i > 0 {
                assert(s[i] == s.drop_first()[i - 1]);
            }
        }
    } else {
        assert(s.skip(0) =~= s);
    }
}

proof fn lemma_strip_end_char(s: Seq<char>, c: char)
    ensures
        strip_end_char(s, c).len() <= s.len(),
        strip_end_char(s, c) == s.take(strip_end_char(s, c).len() as int),
        forall|i: int| strip_end_char(s, c).len() <= i < s.len() ==> s[i] == c,
        strip_end_char(s, c).len() > 0 ==> strip_end_char(s, c).last() != c,
    decreases s.len(),
{
    if s.len() > 0 && s.last() == c {
        lemma_strip_end_char(s.drop_last(), c);
        let r = strip_end_char(s, c);
        assert(s.drop_last().take(r.len() as int) =~= s.take(r.len() as int));
        assert forall|i: int| r.len() <= i < s.len() implies s[i] == c by {
            if i < s.len() - 1 {
                assert(s[i] == s.drop_last()[i]);
            }
        }
    } else {
        assert(s.take(s.len() as int) =~= s);
    }
}

/// Trimming a character keeps a contiguous part of the text, removes only
/// copies of that character around it, and leaves none at either end.
pub proof fn law_trim_char(s: Seq<char>, c: char)
    ensures
        exists|a: int, b: int|
            0 <= a <= b <= s.len() && trim_char_spec(s, c) == #[trigger] s.subrange(a, b) && (forall|i: int|
                0 <= i < a ==> s[i] == c) && (forall|i: int| b <= i < s.len() ==> s[i] == c),
        trim_char_spec(s, c).len() > 0 ==> trim_char_spec(s, c)[0] != c && trim_char_spec(s, c).last()
            != c,
{
    let t = strip_start_char(s, c);
    let r = trim_char_spec(s, c);
    lemma_strip_start_char(s, c);
    lemma_strip_end_char(t, c);
    let a = s.len() - t.len();
    let b = a + r.len();
    assert(r =~= s.subrange(a, b));
    assert forall|i: int| b <= i < s.len() implies s[i] == c by {
        assert(s[i] == t[i - a]);
    }
    if r.len() > 0 {
        assert(r[0] == t[0]);
    }
}

proof fn lemma_trim_start(s: Seq<char>)
    ensures
        trim_start_spec(s).len() <= s.len(),
        trim_start_spec(s) == s.skip(s.len() - trim_start_spec(s).len()),
        forall|i: int| 0 <= i < s.len() - trim_start_spec(s).len() ==> is_white_space(s[i]),
        trim_start_spec(s).len() > 0 ==> !is_white_space(trim_start_spec(s)[0]),
    decreases s.len(),
{
    if s.len() > 0 && is_white_space(s[0]) {
        lemma_trim_start(s.drop_first());
        let r = trim_start_spec(s);
        assert(s.drop_first().skip(s.len() - 1 - r.len()) =~= s.skip(s.len() - r.len()));
        assert forall|i: int| 0 <= i < s.len() - r.len() implies is_white_space(s[i]) by {
            if i > 0 {
                assert(s[i] == s.drop_first()[i - 1]);
            }
        }
    } else {
        assert(s.skip(0) =~= s);
    }
}

proof fn lemma_trim_end(s: Seq<char>)
    ensures
        trim_end_spec(s).len() <= s.len(),
        trim_end_spec(s) == s.take(trim_end_spec(s).len() as int),
        forall|i: int| trim_end_spec(s).len() <= i < s.len() ==> is_white_space(s[i]),
        trim_end_spec(s).len() > 0 ==> !is_white_space(trim_end_spec(s).last()),
    decreases s.len(),
{
    if s.len() > 0 && is_white_space(s.last()) {
        lemma_trim_end(s.drop_last());
        let r = trim_end_spec(s);
        assert(s.drop_last().take(r.len() as int) =~= s.take(r.len() as int));
        assert forall|i: int| r.len() <= i < s.len() implies is_white_space(s[i]) by {
            if i < s.len() - 1 {
                assert(s[i] == s.drop_last()[i]);
            }
        }
    } else {
        assert(s.take(s.len() as int) =~= s);
    }
}

/// Trimming keeps a contiguous part of the text, removes only white space
/// around it, and leaves none at either end.
pub proof fn law_trim(s: Seq<char>)
    ensures
        exists|a: int, b: int|
            0 <= a <= b <= s.len() && trim_spec(s) == #[trigger] s.subrange(a, b) && (forall|i: int|
                0 <= i < a ==> is_white_space(s[i])) && (forall|i: int|
                b <= i < s.len() ==> is_white_space(s[i])),
        trim_spec(s).len() > 0 ==> !is_white_space(trim_spec(s)[0]) && !is_white_space(
            trim_spec(s).last(),
        ),
{
    let t = trim_start_spec(s);
    let r = trim_spec(s);
    lemma_trim_start(s);
    lemma_trim_end(t);
    let a = s.len() - t.len();
    let b = a + r.len();
    assert(r =~= s.subrange(a, b));
    assert forall|i: int| b <= i < s.len() implies is_white_space(s[i]) by {
        assert(s[i] == t[i - a]);
    }
    if r.len() > 0 {
        assert(r[0] == t[0]);
    }
}

/// The characters of `s` from `start` up to `end`.
pub fn slice_chars(s: &Vec<char>, start: usize, end: usize) -> (r: Vec<char>)
    requires
        start <= end <= s.len(),
    ensures
        r@ == s@.subrange(start as int, end as int),
{
    let mut r: Vec<char> = Vec::new();
    let mut k: usize = start;
    proof {
        assert(s@.subrange(start as int, start as int) =~= Seq::<char>::empty());
    }
    while k < end
        invariant
            start <= k <= end <= s.len(),
            r@ == s@.subrange(start as int, k as int),
        decreases end - k,
    {
        proof {
            assert(s@.subrange(start as int, k + 1) =~= s@.subrange(start as int, k as int).push(
                s@[k as int],
            ));
        }
        r.push(s[k]);
        k = k + 1;
    }
    r
}

proof fn lemma_trim_start_skip(s: Seq<char>, i: int)
    requires
        0 <= i <= s.len(),
        forall|j: int| 0 <= j < i ==> is_white_space(#[trigger] s[j]),
    ensures
        trim_start_spec(s) == trim_start_spec(s.skip(i)),
    decreases i,
{
    if i > 0 {
        assert(s.drop_first().skip(i - 1) =~= s.skip(i));
        lemma_trim_start_skip(s.drop_first(), i - 1);
    } else {
        assert(s.skip(0) =~= s);
    }
}

proof fn lemma_trim_end_take(s: Seq<char>, i: int)
    requires
        0 <= i <= s.len(),
        forall|j: int| i <= j < s.len() ==> is_white_space(#[trigger] s[j]),
    ensures
        trim_end_spec(s) == trim_end_spec(s.take(i)),
    decreases s.len() - i,
{
    if i < s.len() {
        assert(s.drop_last().take(i) =~= s.take(i));
        lemma_trim_end_take(s.drop_last(), i);
    } else {
        assert(s.take(i) =~= s);
    }
}

proof fn lemma_strip_start_skip(s: Seq<char>, c: char, i: int)
    requires
        0 <= i <= s.len(),
        forall|j: int| 0 <= j < i ==> #[trigger] s[j] == c,
    ensures
        strip_start_char(s, c) == strip_start_char(s.skip(i), c),
    decreases i,
{
    if i > 0 {
        assert(s.drop_first().skip(i - 1) =~= s.skip(i));
        lemma_strip_start_skip(s.drop_first(), c, i - 1);
    } else {
        assert(s.skip(0) =~= s);
    }
}

proof fn lemma_strip_end_take(s: Seq<char>, c: char, i: int)
    requires
        0 <= i <= s.len(),
        forall|j: int| i <= j < s.len() ==> #[trigger] s[j] == c,
    ensures
        strip_end_char(s, c) == strip_end_char(s.take(i), c),
    decreases s.len() - i,
{
    if i < s.len() {
        assert(s.drop_last().take(i) =~= s.take(i));
        lemma_strip_end_take(s.drop_last(), c, i);
    } else {
        assert(s.take(i) =~= s);
    }
}

/// `s` without leading and trailing white space, as `str::trim` gives it.
pub fn trim(s: &Vec<char>) -> (r: Vec<char>)
    ensures
        r@ == trim_spec(s@),
{
    let mut start: usize = 0;
    while start < s.len() && is_whitespace(s[start])
        invariant
            start <= s.len(),
            forall|j: int| 0 <= j < start ==> is_white_space(#[trigger] s@[j]),
        decreases s.len() - start,
    {
        start = start + 1;
    }
    proof {
        lemma_trim_start_skip(s@, start as int);
    }
    let ghost rest = s@.skip(start as int);
    let mut end: usize = s.len();
    while end > start && is_whitespace(s[end - 1])
        invariant
            start <= end <= s.len(),
            forall|j: int| end <= j < s.len() ==> is_white_space(#[trigger] s@[j]),
        decreases end,
    {
        end = end - 1;
    }
    proof {
        assert(trim_start_spec(s@) == rest);
        if start < s.len() {
            assert(!is_white_space(rest[0]));
        }
        assert forall|j: int| end - start <= j < rest.len() implies is_white_space(#[trigger] rest[j]) by {
            assert(rest[j] == s@[start + j]);
        }
        lemma_trim_end_take(rest, end - start);
        assert(rest.take(end - start) =~= s@.subrange(start as int, end as int));
    }
    slice_chars(s, start, end)
}

/// `s` without leading and trailing copies of `c`, as `str::trim_matches` gives it.
pub fn trim_char(s: &Vec<char>, c: char) -> (r: Vec<char>)
    ensures
        r@ == trim_char_spec(s@, c),
{
    let mut start: usize = 0;
    while start < s.len() && s[start] == c
        invariant
            start <= s.len(),
            forall|j: int| 0 <= j < start ==> #[trigger] s@[j] == c,
        decreases s.len() - start,
    {
        start = start + 1;
    }
    proof {
        lemma_strip_start_skip(s@, c, start as int);
    }
    let ghost rest = s@.skip(start as int);
    let mut end: usize = s.len();
    while end > start && s[end - 1] == c
        invariant
            start <= end <= s.len(),
            forall|j: int| end <= j < s.len() ==> #[trigger] s@[j] == c,
        decreases end,
    {
        end = end - 1;
    }
    proof {
        assert(strip_start_char(s@, c) == rest);
        if start < s.len() {
            assert(rest[0] != c);
        }
        assert forall|j: int| end - start <= j < rest.len() implies #[trigger] rest[j] == c by {
            assert(rest[j] == s@[start + j]);
        }
        lemma_strip_end_take(rest, c, end - start);
        assert(rest.take(end - start) =~= s@.subrange(start as int, end as int));
    }
    slice_chars(s, start, end)
}

/// Whether `s` begins with `prefix`.
pub fn starts_with(s: &Vec<char>, prefix: &Vec<char>) -> (b: bool)
    ensures
        b == (prefix.len() <= s.len() && s@.take(prefix.len() as int) == prefix@),
{
    if prefix.len() > s.len() {
        return false;
    }
    let mut i: usize = 0;
    while i < prefix.len()
        invariant
            i <= prefix.len() <= s.len(),
            s@.take(i as int) == prefix@.take(i as int),
        decreases prefix.len() - i,
    {
        if s[i] != prefix[i] {
            proof {
                assert(s@.take(prefix.len() as int)[i as int] != prefix@[i as int]);
            }
            return false;
        }
        proof {
            assert(s@.take(i + 1) =~= s@.take(i as int).push(s@[i as int]));
            assert(prefix@.take(i + 1) =~= prefix@.take(i as int).push(prefix@[i as int]));
        }
        i = i + 1;
    }
    proof {
        assert(prefix@.take(prefix.len() as int) =~= prefix@);
    }
    true
}

/// A nonempty text without white space.
pub open spec fn is_word(w: Seq<char>) -> bool {
    w.len() > 0 && forall|j: int| 0 <= j < w.len() ==> !is_white_space(#[trigger] w[j])
}

/// Whether every text of the sequence is a word.
pub open spec fn all_words(ws: Seq<Seq<char>>) -> bool {
    forall|i: int| 0 <= i < ws.len() ==> is_word(#[trigger] ws[i])
}

/// Every word that `split_whitespace` yields is nonempty and holds no white space.
pub proof fn lemma_words_are_words(s: Seq<char>, word: Seq<char>, words: Seq<Seq<char>>)
    requires
        forall|j: int| 0 <= j < word.len() ==> !is_white_space(#[trigger] word[j]),
        all_words(words),
    ensures
        all_words(words_from(s, word, words)),
    decreases s.len(),
{
    let next = if word.len() > 0 {
        words.push(word)
    } else {
        words
    };
    assert(all_words(next)) by {
        assert forall|i: int| 0 <= i < next.len() implies is_word(#[trigger] next[i]) by {
            if i < words.len() {
                assert(next[i] == words[i]);
            } else {
                assert(next[i] == word);
            }
        }
    }
    if s.len() == 0 {
    } else if is_white_space(s[0]) {
        lemma_words_are_words(s.drop_first(), seq![], next);
    } else {
        let w = word.push(s[0]);
        assert forall|j: int| 0 <= j < w.len() implies !is_white_space(#[trigger] w[j]) by {
            if j < word.len() {
                assert(w[j] == word[j]);
            }
        }
        lemma_words_are_words(s.drop_first(), w, words);
    }
}

/// Reading characters other than a line feed only extends the current line.
pub proof fn lemma_lines_within_line(x: Seq<char>, y: Seq<char>, line: Seq<char>, lines: Seq<Seq<char>>)
    requires
        !x.contains('\n'),
    ensures
        lines_from(x + y, line, lines) == lines_from(y, line + x, lines),
    decreases x.len(),
{
    if x.len() == 0 {
        assert(x + y =~= y);
        assert(line + x =~= line);
    } else {
        assert((x + y)[0] == x[0]);
        assert((x + y).drop_first() =~= x.drop_first() + y);
        assert(line.push(x[0]) + x.drop_first() =~= line + x);
        assert(!x.drop_first().contains('\n')) by {
            if x.drop_first().contains('\n') {
                let k = choose|k: int| 0 <= k < x.drop_first().len() && x.drop_first()[k] == '\n';
                assert(x[k + 1] == '\n');
            }
        }
        assert(x[0] != '\n') by {
            if x[0] == '\n' {
                assert(x.contains('\n'));
            }
        }
        lemma_lines_within_line(x.drop_first(), y, line.push(x[0]), lines);
    }
}

/// The lines of texts joined by line feeds, followed by more text.
proof fn lemma_lines_of_joined(parts: Seq<Seq<char>>, rest: Seq<char>, lines: Seq<Seq<char>>)
    requires
        parts.len() > 0,
        forall|i: int|
            0 <= i < parts.len() ==> !(#[trigger] parts[i]).contains('\n') && !parts[i].contains(
                '\r',
            ),
    ensures
        lines_from(join_lines(parts) + rest, seq![], lines) == lines_from(
            rest,
            parts.last(),
            lines + parts.drop_last(),
        ),
    decreases parts.len(),
{
    if parts.len() == 1 {
        assert(join_lines(parts) == parts[0]);
        lemma_lines_within_line(parts[0], rest, seq![], lines);
        assert(Seq::<char>::empty() + parts[0] =~= parts[0]);
        assert(lines + parts.drop_last() =~= lines);
    } else {
        let init = parts.drop_last();
        let x = parts.last();
        assert(join_lines(parts) == join_lines(init) + seq!['\n'] + x);
        let rest2 = seq!['\n'] + x + rest;
        assert(join_lines(parts) + rest =~= join_lines(init) + rest2);
        assert forall|i: int| 0 <= i < init.len() implies !(#[trigger] init[i]).contains('\n')
            && !init[i].contains('\r') by {
            assert(init[i] == parts[i]);
        }
        lemma_lines_of_joined(init, rest2, lines);
        let last = init.last();
        assert(!last.contains('\r'));
        assert(strip_carriage_return(last) == last) by {
            if last.len() > 0 && last.last() == '\r' {
                assert(last[last.len() - 1] == '\r');
                assert(last.contains('\r'));
            }
        }
        assert(rest2[0] == '\n');
        assert(rest2.drop_first() =~= x + rest);
        lemma_lines_within_line(x, rest, seq![], lines + init.drop_last().push(last));
        assert(Seq::<char>::empty() + x =~= x);
        assert(lines + init.drop_last().push(last) =~= lines + parts.drop_last());
    }
}

/// Texts joined with line feeds between consecutive ones.
pub open spec fn join_lines(parts: Seq<Seq<char>>) -> Seq<char>
    decreases parts.len(),
{
    if parts.len() == 0 {
        seq![]
    } else if parts.len() == 1 {
        parts[0]
    } else {
        join_lines(parts.drop_last()) + seq!['\n'] + parts.last()
    }
}

/// Nonempty lines without line feeds or carriage returns, joined with line
/// feeds, are split back into the same lines by `str::lines`.
pub proof fn lemma_lines_of_join(parts: Seq<Seq<char>>)
    requires
        forall|i: int|
            0 <= i < parts.len() ==> (#[trigger] parts[i]).len() > 0 && !parts[i].contains('\n')
                && !parts[i].contains('\r'),
    ensures
        lines_spec(join_lines(parts)) == parts,
{
    if parts.len() > 0 {
        lemma_lines_of_joined(parts, seq![], seq![]);
        assert(join_lines(parts) + Seq::<char>::empty() =~= join_lines(parts));
        assert(Seq::<Seq<char>>::empty() + parts.drop_last() =~= parts.drop_last());
        assert(parts.last().len() > 0);
        assert(parts.drop_last().push(parts.last()) =~= parts);
    }
}

} // verus!
