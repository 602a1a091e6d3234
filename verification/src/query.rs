//! The `/query` command's logic: turning the user's query into the words to
//! look up in the model, deciding on the looked-up tokens, and rendering the
//! generated words into the reply, with custom emojis resolved against the
//! guild's emoji list.

use vstd::prelude::*;
use vstd::string::*;
use crate::text::{
    chars_of, char_rows, decimal, push_chars, push_decimal, split_whitespace,
    split_whitespace_spec, string_of,
};

verus! {

/// The result of `str::to_lowercase` on a text (Unicode lower-case mapping).
pub uninterp spec fn lowercase(s: Seq<char>) -> Seq<char>;

/// Calls `str::to_lowercase`.  The contract only names the result: the
/// Unicode case mapping is not restated here.
#[verifier::external_body]
fn to_lowercase(s: &str) -> (r: String)
    ensures
        r@ == lowercase(s@),
{
    s.to_lowercase()
}

/// The index of the last occurrence of `c` in `s`, or -1.
pub open spec fn last_index_of(s: Seq<char>, c: char) -> int
    decreases s.len(),
{
    if s.len() == 0 {
        -1
    } else if s.last() == c {
        s.len() - 1
    } else {
        last_index_of(s.drop_last(), c)
    }
}

/// Whether a word is a Discord custom emoji such as `<:name:1234>`.
pub open spec fn is_custom_emoji(word: Seq<char>) -> bool {
    word.len() >= 2 && word[0] == '<' && word[1] == ':' && word.last() == '>'
}

/// The form in which the model knows a word: a custom emoji `<:name:id>`
/// becomes `:name:` (everything from its first colon through its last one),
/// any other word stays as it is.
pub open spec fn model_form(word: Seq<char>) -> Seq<char> {
    if is_custom_emoji(word) {
        word.subrange(1, last_index_of(word, ':') + 1)
    } else {
        word
    }
}

/// The words of a query as the model is asked for them: the white-space
/// separated words, lower-cased, custom emojis reduced to their `:name:` form.
pub open spec fn query_words_spec(query: Seq<char>) -> Seq<Seq<char>> {
    split_whitespace_spec(query).map_values(|w: Seq<char>| model_form(lowercase(w)))
}

proof fn lemma_last_index_bounds(s: Seq<char>, c: char)
    ensures
        -1 <= last_index_of(s, c) < s.len(),
        last_index_of(s, c) >= 0 ==> s[last_index_of(s, c)] == c,
        forall|i: int| last_index_of(s, c) < i < s.len() ==> s[i] != c,
    decreases s.len(),
{
    if s.len() > 0 && s.last() != c {
        lemma_last_index_bounds(s.drop_last(), c);
        assert forall|i: int| last_index_of(s, c) < i < s.len() implies s[i] != c by {
            if i < s.len() - 1 {
                assert(s.drop_last()[i] == s[i]);
            }
        }
    }
}

/// A custom emoji `<:name:id>` whose id holds no colon is asked of the
/// model as `:name:`.
pub proof fn law_custom_emoji_form(name: Seq<char>, id: Seq<char>)
    requires
        !id.contains(':'),
    ensures
        model_form(seq!['<', ':'] + name + seq![':'] + id + seq!['>']) == seq![':'] + name + seq![':'],
{
    let w = seq!['<', ':'] + name + seq![':'] + id + seq!['>'];
    let c: int = name.len() as int + 2;
    assert(w.len() == name.len() + id.len() + 4);
    assert(w[0] == '<' && w[1] == ':' && w.last() == '>');
    assert(w[c] == ':');
    lemma_last_index_bounds(w, ':');
    let l = last_index_of(w, ':');
    assert(l >= c) by {
        if l < c {
            assert(w[c] != ':');
        }
    }
    assert(l <= c) by {
        if l > c {
            assert(w[l] == ':');
            if l < w.len() - 1 {
                assert(w[l] == id[l - c - 1]);
                assert(id.contains(':'));
            }
        }
    }
    assert(w.subrange(1, c + 1) =~= seq![':'] + name + seq![':']);
}

/// The index of the last occurrence of `c` in `s`, if any.
fn find_last(s: &Vec<char>, c: char) -> (r: Option<usize>)
    ensures
        match r {
            Some(k) => k == last_index_of(s@, c),
            None => last_index_of(s@, c) == -1,
        },
{
    let mut i: usize = s.len();
    proof {
        assert(s@.take(s.len() as int) =~= s@);
    }
    while i > 0
        invariant
            i <= s.len(),
            last_index_of(s@, c) == last_index_of(s@.take(i as int), c),
        decreases i,
    {
        proof {
            assert(s@.take(i as int).drop_last() =~= s@.take(i - 1));
        }
        if s[i - 1] == c {
            return Some(i - 1);
        }
        i = i - 1;
    }
    None
}

/// The model form of one (lower-cased) word.
fn to_model_form(word: Vec<char>) -> (r: Vec<char>)
    ensures
        r@ == model_form(word@),
{
    if word.len() >= 2 && word[0] == '<' && word[1] == ':' && word[word.len() - 1] == '>' {
        let found = find_last(&word, ':');
        proof {
            lemma_last_index_bounds(word@, ':');
            assert(word@[1] == ':');
        }
        let end = match found {
            Some(k) => k,
            None => 1,
        };
        let mut r: Vec<char> = Vec::new();
        let mut k: usize = 1;
        proof {
            assert(word@.subrange(1, 1) =~= Seq::<char>::empty());
        }
        while k <= end
            invariant
                1 <= k <= end + 1,
                end < word.len(),
                r@ == word@.subrange(1, k as int),
            decreases end + 1 - k,
        {
            proof {
                assert(word@.subrange(1, k + 1) =~= word@.subrange(1, k as int).push(word@[k as int]));
            }
            r.push(word[k]);
            k = k + 1;
        }
        r
    } else {
        word
    }
}

/// The words of the query to look up in the model: white-space separated,
/// lower-cased, custom emojis `<:name:id>` reduced to `:name:`.
pub fn query_words(query: &str) -> (words: Vec<String>)
    ensures
        words@.map_values(|w: String| w@) == query_words_spec(query@),
{
    let chars = chars_of(query);
    let split = split_whitespace(&chars);
    let ghost expected = query_words_spec(query@);
    let mut words: Vec<String> = Vec::new();
    let mut i: usize = 0;
    while i < split.len()
        invariant
            i <= split.len(),
            char_rows(split@) == split_whitespace_spec(query@),
            expected == query_words_spec(query@),
            words.len() == i,
            forall|j: int| 0 <= j < i ==> (#[trigger] words@[j])@ == expected[j],
        decreases split.len() - i,
    {
        let word = string_of(&split[i]);
        let lower = to_lowercase(word.as_str());
        let lower_chars = chars_of(lower.as_str());
        let form = to_model_form(lower_chars);
        proof {
            assert(char_rows(split@)[i as int] == split@[i as int]@);
        }
        words.push(string_of(&form));
        i = i + 1;
    }
    proof {
        assert(words@.map_values(|w: String| w@) =~= expected);
    }
    words
}

/// Why a query produced no reply.
#[derive(Debug, PartialEq, Eq)]
pub enum QueryError {
    /// Some word of the query is not a token of the model.
    NotInDataset,
    /// The query holds no word.
    EmptyQuery,
    /// The model generated a token that it has no word for.
    MissingWord(u64),
    /// The model failed to generate, with the reason it gave.
    GenerationFailed(String),
    /// Discord refused the guild's emoji list, with the reason it gave.
    Discord(String),
}

/// The text with which the bot answers a failed query.
pub open spec fn query_error_text(e: QueryError) -> Seq<char> {
    match e {
        QueryError::NotInDataset => "**ERROR: Query not in dataset**"@,
        QueryError::EmptyQuery => "**ERROR: Query cannot be empty**"@,
        QueryError::MissingWord(t) => "**ERROR: Failed to find word for token** `"@ + decimal(
            t as nat,
        ) + "`"@,
        QueryError::GenerationFailed(reason) => "**ERROR: Failed to generate** `"@ + reason@
            + "`"@,
        QueryError::Discord(reason) => "**ERROR:** `"@ + reason@ + "`"@,
    }
}

impl QueryError {
    /// The text with which the bot answers the failed query.
    pub fn message(&self) -> (text: String)
        ensures
            text@ == query_error_text(*self),
    {
        let mut out = String::new();
        match self {
            QueryError::NotInDataset => out.append("**ERROR: Query not in dataset**"),
            QueryError::EmptyQuery => out.append("**ERROR: Query cannot be empty**"),
            QueryError::MissingWord(t) => {
                out.append("**ERROR: Failed to find word for token** `");
                push_decimal(&mut out, *t as u128);
                out.append("`");
            },
            QueryError::GenerationFailed(reason) => {
                out.append("**ERROR: Failed to generate** `");
                out.append(reason.as_str());
                out.append("`");
            },
            QueryError::Discord(reason) => {
                out.append("**ERROR:** `");
                out.append(reason.as_str());
                out.append("`");
            },
        }
        proof {
            assert(out@ =~= query_error_text(*self));
        }
        out
    }
}

/// What the lookups of the query words in the model decide: every word must
/// have a token, and there must be at least one.
pub open spec fn query_tokens_spec(lookups: Seq<Option<u64>>) -> Result<Seq<u64>, QueryError> {
    if exists|i: int| 0 <= i < lookups.len() && lookups[i] is None {
        Err(QueryError::NotInDataset)
    } else if lookups.len() == 0 {
        Err(QueryError::EmptyQuery)
    } else {
        Ok(lookups.map_values(|o: Option<u64>| o->0))
    }
}

/// Collects the tokens found for the query words: fails with `NotInDataset`
/// when a word has none, else with `EmptyQuery` when there is no word.
pub fn query_tokens(lookups: Vec<Option<u64>>) -> (r: Result<Vec<u64>, QueryError>)
    ensures
        match query_tokens_spec(lookups@) {
            Ok(tokens) => r matches Ok(v) && v@ == tokens,
            Err(e) => r == Err::<Vec<u64>, QueryError>(e),
        },
        (exists|i: int| 0 <= i < lookups@.len() && #[trigger] lookups@[i] is None) ==> r
            == Err::<Vec<u64>, QueryError>(QueryError::NotInDataset),
        lookups@.len() == 0 ==> r == Err::<Vec<u64>, QueryError>(QueryError::EmptyQuery),
        (lookups@.len() > 0 && forall|i: int| 0 <= i < lookups@.len() ==> #[trigger] lookups@[i] is Some)
            ==> r is Ok,
        r matches Ok(v) ==> v@.len() == lookups@.len() && forall|i: int|
            0 <= i < lookups@.len() ==> lookups@[i] == Some(#[trigger] v@[i]),
{
    let mut tokens: Vec<u64> = Vec::new();
    let mut i: usize = 0;
    while i < lookups.len()
        invariant
            i <= lookups.len(),
            tokens.len() == i,
            forall|j: int| 0 <= j < i ==> lookups@[j] == Some(#[trigger] tokens@[j]),
        decreases lookups.len() - i,
    {
        match lookups[i] {
            Some(t) => tokens.push(t),
            None => {
                proof {
                    assert(0 <= i < lookups@.len() && lookups@[i as int] is None);
                    law_query_tokens(lookups@);
                }
                return Err(QueryError::NotInDataset);
            },
        }
        i = i + 1;
    }
    proof {
        assert forall|j: int| 0 <= j < lookups@.len() implies !(lookups@[j] is None) by {
            assert(lookups@[j] == Some(tokens@[j]));
        }
    }
    if tokens.len() == 0 {
        return Err(QueryError::EmptyQuery);
    }
    proof {
        assert(tokens@ =~= lookups@.map_values(|o: Option<u64>| o->0));
        law_query_tokens(lookups@);
    }
    Ok(tokens)
}

/// Any word without a token makes the query fail as not in the dataset,
/// whichever word it is; no word at all makes it fail as empty; otherwise the
/// tokens are those of the words, one each, in order.
pub proof fn law_query_tokens(lookups: Seq<Option<u64>>)
    ensures
        (exists|i: int| 0 <= i < lookups.len() && #[trigger] lookups[i] is None) ==> query_tokens_spec(
            lookups,
        ) == Err::<Seq<u64>, QueryError>(QueryError::NotInDataset),
        lookups.len() == 0 ==> query_tokens_spec(lookups) == Err::<Seq<u64>, QueryError>(
            QueryError::EmptyQuery,
        ),
        (lookups.len() > 0 && forall|i: int| 0 <= i < lookups.len() ==> #[trigger] lookups[i] is Some)
            ==> query_tokens_spec(lookups) is Ok,
        query_tokens_spec(lookups) matches Ok(v) ==> v.len() == lookups.len() && forall|i: int|
            0 <= i < lookups.len() ==> lookups[i] == Some(#[trigger] v[i]),
{
    if let Ok(v) = query_tokens_spec(lookups) {
        assert forall|i: int| 0 <= i < lookups.len() implies lookups[i] == Some(#[trigger] v[i]) by {
            assert(!(lookups[i] is None));
        }
    }
}

/// One step of the model's generation, as the reply renders it.
#[derive(Debug, PartialEq, Eq)]
pub enum Generated {
    /// The word of a generated token.
    Word(String),
    /// A generated token that the model has no word for.
    UnknownToken(u64),
    /// The generation failed, with the reason the model gave.
    Failed(String),
}

/// What the guild offers for resolving emoji words.
#[derive(Debug, PartialEq, Eq)]
pub enum GuildEmojis {
    /// The query was not sent from a guild: emoji words stay as they are.
    NotInGuild,
    /// The guild's custom emojis, as (name, id), in the order Discord lists them.
    Listed(Vec<(String, u64)>),
    /// Discord refused the emoji list, with the reason it gave.
    Unavailable(String),
}

/// Whether a generated word names an emoji: it begins and ends with a colon.
pub open spec fn is_emoji_word(word: Seq<char>) -> bool {
    word.len() >= 1 && word[0] == ':' && word.last() == ':'
}

/// The first emoji of the list with the given name.
pub open spec fn find_emoji(list: Seq<(String, u64)>, name: Seq<char>) -> Option<(String, u64)>
    decreases list.len(),
{
    if list.len() == 0 {
        None
    } else if list[0].0@ == name {
        Some(list[0])
    } else {
        find_emoji(list.drop_first(), name)
    }
}

/// The text a generated word adds to the reply after its space: an emoji word
/// `:name:` becomes the guild's first emoji of that name as `<:name:id>`, or
/// nothing when the guild has none of that name; outside a guild, and for any
/// other word, the word itself.
pub open spec fn rendered_word(word: Seq<char>, guild: GuildEmojis) -> Result<Seq<char>, QueryError> {
    if is_emoji_word(word) {
        match guild {
            GuildEmojis::NotInGuild => Ok(word),
            GuildEmojis::Listed(list) => match find_emoji(list@, word.subrange(1, word.len() - 1)) {
                Some(emoji) => Ok(seq!['<', ':'] + emoji.0@ + seq![':'] + decimal(emoji.1 as nat)
                    + seq!['>']),
                None => Ok(seq![]),
            },
            GuildEmojis::Unavailable(reason) => Err(QueryError::Discord(reason)),
        }
    } else {
        Ok(word)
    }
}

/// The reply built from `message` by the remaining generation steps: each
/// word adds a space and its rendering; the first failing step decides the error.
pub open spec fn render_steps(message: Seq<char>, steps: Seq<Generated>, guild: GuildEmojis) -> Result<
    Seq<char>,
    QueryError,
>
    decreases steps.len(),
{
    if steps.len() == 0 {
        Ok(message)
    } else {
        match steps[0] {
            Generated::Word(w) => match rendered_word(w@, guild) {
                Ok(text) => render_steps(message.push(' ') + text, steps.drop_first(), guild),
                Err(e) => Err(e),
            },
            Generated::UnknownToken(t) => Err(QueryError::MissingWord(t)),
            Generated::Failed(reason) => Err(QueryError::GenerationFailed(reason)),
        }
    }
}

/// Whether rendering reaches a bare `:` while the guild has emojis: the word
/// then has no inner name to compare with theirs (the slice of it is out of
/// range).  Steps after the first failing one are never reached.
pub open spec fn reaches_bare_colon(steps: Seq<Generated>, guild: GuildEmojis) -> bool
    decreases steps.len(),
{
    if steps.len() == 0 {
        false
    } else {
        match steps[0] {
            Generated::Word(w) => if w@ == seq![':'] && (guild matches GuildEmojis::Listed(list)
                && list.len() > 0) {
                true
            } else if rendered_word(w@, guild) is Err {
                false
            } else {
                reaches_bare_colon(steps.drop_first(), guild)
            },
            _ => false,
        }
    }
}

/// Whether some generated word names an emoji, so that the guild's emojis
/// are needed to render the reply.
pub fn needs_emojis(steps: &Vec<Generated>) -> (b: bool)
    ensures
        b == exists|i: int| 0 <= i < steps.len() && (#[trigger] steps@[i] matches Generated::Word(w) && is_emoji_word(w@)),
{
    let mut i: usize = 0;
    while i < steps.len()
        invariant
            i <= steps.len(),
            forall|j: int| 0 <= j < i ==> !(#[trigger] steps@[j] matches Generated::Word(w) && is_emoji_word(w@)),
        decreases steps.len() - i,
    {
        match &steps[i] {
            Generated::Word(w) => {
                let chars = chars_of(w.as_str());
                if chars.len() >= 1 && chars[0] == ':' && chars[chars.len() - 1] == ':' {
                    return true;
                }
            },
            _ => {},
        }
        i = i + 1;
    }
    false
}

/// The rendering of one emoji word.
#[verifier::loop_isolation(false)]
fn render_emoji(word: &Vec<char>, guild: &GuildEmojis) -> (r: Result<Vec<char>, QueryError>)
    requires
        is_emoji_word(word@),
        guild matches GuildEmojis::Listed(list) && list.len() > 0 ==> word@ != seq![':'],
    ensures
        match rendered_word(word@, *guild) {
            Ok(text) => r matches Ok(v) && v@ == text,
            Err(e) => r == Err::<Vec<char>, QueryError>(e),
        },
{
    match guild {
        GuildEmojis::NotInGuild => Ok(word.clone()),
        GuildEmojis::Unavailable(reason) => Err(QueryError::Discord(reason.clone())),
        GuildEmojis::Listed(list) => {
            if list.len() == 0 {
                return Ok(Vec::new());
            }
            proof {
                assert(word@.len() >= 2) by {
                    if word@.len() == 1 {
                        assert(word@ =~= seq![':']);
                    }
                }
            }
            let mut inner_chars: Vec<char> = Vec::new();
            let mut k: usize = 1;
            proof {
                assert(word@.subrange(1, 1) =~= Seq::<char>::empty());
            }
            while k < word.len() - 1
                invariant
                    1 <= k <= word.len() - 1,
                    word.len() >= 2,
                    inner_chars@ == word@.subrange(1, k as int),
                decreases word.len() - 1 - k,
            {
                proof {
                    assert(word@.subrange(1, k + 1) =~= word@.subrange(1, k as int).push(word@[k as int]));
                }
                inner_chars.push(word[k]);
                k = k + 1;
            }
            let inner = string_of(&inner_chars);
            let ghost name = word@.subrange(1, word@.len() - 1);
            let mut i: usize = 0;
            proof {
                assert(list@.skip(0) =~= list@);
            }
            while i < list.len()
                invariant
                    i <= list.len(),
                    inner@ == name,
                    find_emoji(list@, name) == find_emoji(list@.skip(i as int), name),
                decreases list.len() - i,
            {
                proof {
                    assert(list@.skip(i as int).drop_first() =~= list@.skip(i + 1));
                    assert(list@.skip(i as int)[0] == list@[i as int]);
                }
                if list[i].0 == inner {
                    proof {
                        assert(list@[i as int].0@ == name);
                        assert(find_emoji(list@.skip(i as int), name) == Some(list@[i as int]));
                    }
                    let mut out: Vec<char> = Vec::new();
                    out.push('<');
                    out.push(':');
                    let name_chars = chars_of(list[i].0.as_str());
                    let mut j: usize = 0;
                    let ghost before = out@;
                    while j < name_chars.len()
                        invariant
                            j <= name_chars.len(),
                            out@ == before + name_chars@.take(j as int),
                        decreases name_chars.len() - j,
                    {
                        proof {
                            assert(name_chars@.take(j + 1) =~= name_chars@.take(j as int).push(name_chars@[j as int]));
                        }
                        out.push(name_chars[j]);
                        j = j + 1;
                    }
                    proof {
                        assert(name_chars@.take(name_chars.len() as int) =~= name_chars@);
                    }
                    out.push(':');
                    let id = decimal_chars(list[i].1 as u128);
                    let ghost before_id = out@;
                    let mut j: usize = 0;
                    while j < id.len()
                        invariant
                            j <= id.len(),
                            out@ == before_id + id@.take(j as int),
                        decreases id.len() - j,
                    {
                        proof {
                            assert(id@.take(j + 1) =~= id@.take(j as int).push(id@[j as int]));
                        }
                        out.push(id[j]);
                        j = j + 1;
                    }
                    proof {
                        assert(id@.take(id.len() as int) =~= id@);
                    }
                    out.push('>');
                    proof {
                        assert(out@ =~= seq!['<', ':'] + list@[i as int].0@ + seq![':'] + decimal(
                            list@[i as int].1 as nat,
                        ) + seq!['>']);
                    }
                    return Ok(out);
                }
                i = i + 1;
            }
            Ok(Vec::new())
        },
    }
}

/// The characters of the decimal representation of `n`.
fn decimal_chars(n: u128) -> (v: Vec<char>)
    ensures
        v@ == decimal(n as nat),
{
    let s = crate::text::decimal_string(n);
    chars_of(s.as_str())
}

/// Renders the generated words after the query: each word is preceded by a
/// space, emoji words `:name:` are resolved against the guild's emojis, and
/// the first failed step (a token without a word, a generation failure, or
/// the guild's emoji list being unavailable when an emoji word needs it)
/// decides the error.
pub fn render_message(start: String, steps: Vec<Generated>, guild: &GuildEmojis) -> (r: Result<
    String,
    QueryError,
>)
    requires
        !reaches_bare_colon(steps@, *guild),
    ensures
        match render_steps(start@, steps@, *guild) {
            Ok(text) => r matches Ok(s) && s@ == text,
            Err(e) => r == Err::<String, QueryError>(e),
        },
{
    let mut message = start;
    let mut i: usize = 0;
    proof {
        assert(steps@.skip(0) =~= steps@);
    }
    while i < steps.len()
        invariant
            i <= steps.len(),
            !reaches_bare_colon(steps@.skip(i as int), *guild),
            render_steps(start@, steps@, *guild) == render_steps(message@, steps@.skip(i as int), *guild),
        decreases steps.len() - i,
    {
        proof {
            assert(steps@.skip(i as int).drop_first() =~= steps@.skip(i + 1));
            assert(steps@.skip(i as int)[0] == steps@[i as int]);
        }
        match &steps[i] {
            Generated::Word(w) => {
                let chars = chars_of(w.as_str());
                message.push(' ');
                if chars.len() >= 1 && chars[0] == ':' && chars[chars.len() - 1] == ':' {
                    match render_emoji(&chars, guild) {
                        Ok(text) => push_chars(&mut message, &text),
                        Err(e) => {
                            return Err(e);
                        },
                    }
                } else {
                    push_chars(&mut message, &chars);
                }
            },
            Generated::UnknownToken(t) => {
                return Err(QueryError::MissingWord(*t));
            },
            Generated::Failed(reason) => {
                return Err(QueryError::GenerationFailed(reason.clone()));
            },
        }
        i = i + 1;
    }
    Ok(message)
}

/// A reply always begins with the query as the user typed it: rendering only
/// appends to the message it starts from.
pub proof fn law_reply_starts_with_query(start: Seq<char>, steps: Seq<Generated>, guild: GuildEmojis)
    ensures
        render_steps(start, steps, guild) matches Ok(reply) ==> reply.len() >= start.len()
            && reply.take(start.len() as int) == start,
    decreases steps.len(),
{
    if steps.len() > 0 {
        match steps[0] {
            Generated::Word(w) => match rendered_word(w@, guild) {
                Ok(text) => {
                    let next = start.push(' ') + text;
                    law_reply_starts_with_query(next, steps.drop_first(), guild);
                    match render_steps(start, steps, guild) {
                        Ok(reply) => {
                            assert(reply.take(next.len() as int).take(start.len() as int)
                                =~= reply.take(start.len() as int));
                            assert(next.take(start.len() as int) =~= start);
                        },
                        Err(_) => {},
                    }
                },
                Err(_) => {},
            },
            _ => {},
        }
    } else {
        assert(start.take(start.len() as int) =~= start);
    }
}

/// The guild's emoji list finds the first emoji with the name.
proof fn lemma_find_first_emoji(list: Seq<(String, u64)>, name: Seq<char>, k: int)
    requires
        0 <= k < list.len(),
        list[k].0@ == name,
        forall|j: int| 0 <= j < k ==> (#[trigger] list[j]).0@ != name,
    ensures
        find_emoji(list, name) == Some(list[k]),
    decreases k,
{
    if k > 0 {
        assert forall|j: int| 0 <= j < k - 1 implies (#[trigger] list.drop_first()[j]).0@ != name by {
            assert(list.drop_first()[j] == list[j + 1]);
        }
        lemma_find_first_emoji(list.drop_first(), name, k - 1);
    }
}

/// No emoji of the list has the name.
proof fn lemma_find_no_emoji(list: Seq<(String, u64)>, name: Seq<char>)
    requires
        forall|j: int| 0 <= j < list.len() ==> (#[trigger] list[j]).0@ != name,
    ensures
        find_emoji(list, name) is None,
    decreases list.len(),
{
    if list.len() > 0 {
        assert forall|j: int| 0 <= j < list.len() - 1 implies (#[trigger] list.drop_first()[j]).0@
            != name by {
            assert(list.drop_first()[j] == list[j + 1]);
        }
        lemma_find_no_emoji(list.drop_first(), name);
    }
}

/// An emoji word `:name:` generated in a guild becomes `<:name:id>` of the
/// first emoji of the guild's list that has that name, wherever it stands in
/// the list; the reply gets a space and that text.
pub proof fn law_emoji_first_match(start: Seq<char>, word: String, list: Vec<(String, u64)>, k: int)
    requires
        word@.len() >= 2,
        word@[0] == ':',
        word@.last() == ':',
        0 <= k < list.len(),
        list@[k].0@ == word@.subrange(1, word@.len() - 1),
        forall|j: int| 0 <= j < k ==> (#[trigger] list@[j]).0@ != word@.subrange(1, word@.len() - 1),
    ensures
        rendered_word(word@, GuildEmojis::Listed(list)) == Ok::<Seq<char>, QueryError>(
            seq!['<', ':'] + list@[k].0@ + seq![':'] + decimal(list@[k].1 as nat) + seq!['>'],
        ),
        render_steps(start, seq![Generated::Word(word)], GuildEmojis::Listed(list)) == Ok::<
            Seq<char>,
            QueryError,
        >(start.push(' ') + seq!['<', ':'] + list@[k].0@ + seq![':'] + decimal(list@[k].1 as nat)
            + seq!['>']),
{
    lemma_find_first_emoji(list@, word@.subrange(1, word@.len() - 1), k);
    let guild = GuildEmojis::Listed(list);
    let text = seq!['<', ':'] + list@[k].0@ + seq![':'] + decimal(list@[k].1 as nat) + seq!['>'];
    let steps = seq![Generated::Word(word)];
    assert(steps[0] == Generated::Word(word));
    assert(rendered_word(word@, guild) == Ok::<Seq<char>, QueryError>(text));
    assert(steps.drop_first() =~= Seq::<Generated>::empty());
    assert(render_steps(start.push(' ') + text, steps.drop_first(), guild) == Ok::<
        Seq<char>,
        QueryError,
    >(start.push(' ') + text));
    assert(start.push(' ') + text =~= start.push(' ') + seq!['<', ':'] + list@[k].0@ + seq![':']
        + decimal(list@[k].1 as nat) + seq!['>']);
}

/// An emoji word whose name no emoji of the guild has adds only its space.
pub proof fn law_emoji_no_match(start: Seq<char>, word: String, list: Vec<(String, u64)>)
    requires
        word@.len() >= 2,
        word@[0] == ':',
        word@.last() == ':',
        forall|j: int| 0 <= j < list.len() ==> (#[trigger] list@[j]).0@ != word@.subrange(
            1,
            word@.len() - 1,
        ),
    ensures
        render_steps(start, seq![Generated::Word(word)], GuildEmojis::Listed(list)) == Ok::<
            Seq<char>,
            QueryError,
        >(start.push(' ')),
{
    lemma_find_no_emoji(list@, word@.subrange(1, word@.len() - 1));
    let guild = GuildEmojis::Listed(list);
    let steps = seq![Generated::Word(word)];
    assert(steps[0] == Generated::Word(word));
    assert(rendered_word(word@, guild) == Ok::<Seq<char>, QueryError>(seq![]));
    assert(steps.drop_first() =~= Seq::<Generated>::empty());
    assert(start.push(' ') + Seq::<char>::empty() =~= start.push(' '));
    assert(render_steps(start.push(' ') + seq![], steps.drop_first(), guild) == Ok::<
        Seq<char>,
        QueryError,
    >(start.push(' ') + seq![]));
}

/// The text that a word that names no emoji, or any word outside a guild,
/// adds to the reply: a space and the word.
pub open spec fn spaced_word(step: Generated) -> Seq<char> {
    match step {
        Generated::Word(w) => seq![' '] + w@,
        _ => seq![],
    }
}

/// Words that name no emoji are appended to the query in order, each after a
/// space, whatever the guild.
pub proof fn law_plain_words(start: Seq<char>, steps: Seq<Generated>, guild: GuildEmojis)
    requires
        forall|i: int|
            0 <= i < steps.len() ==> (#[trigger] steps[i] matches Generated::Word(w) && !is_emoji_word(
                w@,
            )),
    ensures
        render_steps(start, steps, guild) == Ok::<Seq<char>, QueryError>(
            start + steps.map_values(|s: Generated| spaced_word(s)).flatten(),
        ),
    decreases steps.len(),
{
    let spaced = steps.map_values(|s: Generated| spaced_word(s));
    if steps.len() == 0 {
        assert(spaced =~= Seq::<Seq<char>>::empty());
        assert(start + spaced.flatten() =~= start);
    } else {
        assert(steps[0] matches Generated::Word(w) && !is_emoji_word(w@));
        let rest = steps.drop_first();
        assert forall|i: int| 0 <= i < rest.len() implies (#[trigger] rest[i] matches Generated::Word(
            w,
        ) && !is_emoji_word(w@)) by {
            assert(rest[i] == steps[i + 1]);
        }
        if let Generated::Word(w) = steps[0] {
            law_plain_words(start.push(' ') + w@, rest, guild);
            assert(spaced.drop_first() =~= rest.map_values(|s: Generated| spaced_word(s)));
            assert(spaced.first() == seq![' '] + w@);
            assert(start.push(' ') + w@ + rest.map_values(|s: Generated| spaced_word(s)).flatten()
                =~= start + spaced.flatten());
        }
    }
}

/// After words that name no emoji, the first failing step decides the error:
/// a token without a word, a failed generation, or an emoji word while the
/// guild's emoji list is unavailable.
pub proof fn law_first_failure(start: Seq<char>, steps: Seq<Generated>, guild: GuildEmojis, k: int)
    requires
        0 <= k < steps.len(),
        forall|j: int|
            0 <= j < k ==> (#[trigger] steps[j] matches Generated::Word(w) && !is_emoji_word(w@)),
    ensures
        steps[k] matches Generated::UnknownToken(t) ==> render_steps(start, steps, guild) == Err::<
            Seq<char>,
            QueryError,
        >(QueryError::MissingWord(t)),
        steps[k] matches Generated::Failed(reason) ==> render_steps(start, steps, guild) == Err::<
            Seq<char>,
            QueryError,
        >(QueryError::GenerationFailed(reason)),
        (steps[k] matches Generated::Word(w) && is_emoji_word(w@)) ==> (guild matches GuildEmojis::Unavailable(
            reason,
        ) ==> render_steps(start, steps, guild) == Err::<Seq<char>, QueryError>(
            QueryError::Discord(reason),
        )),
    decreases k,
{
    if k > 0 {
        assert(steps[0] matches Generated::Word(w) && !is_emoji_word(w@));
        let rest = steps.drop_first();
        assert forall|j: int| 0 <= j < k - 1 implies (#[trigger] rest[j] matches Generated::Word(w)
            && !is_emoji_word(w@)) by {
            assert(rest[j] == steps[j + 1]);
        }
        assert(rest[k - 1] == steps[k]);
        if let Generated::Word(w) = steps[0] {
            law_first_failure(start.push(' ') + w@, rest, guild, k - 1);
        }
    }
}

} // verus!
