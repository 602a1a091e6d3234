use markov_chains_bot::query::{
    needs_emojis, query_tokens, query_words, render_message, Generated, GuildEmojis, QueryError,
};

fn reference_words(query: &str) -> Vec<String> {
    query
        .split_whitespace()
        .filter(|word| !word.is_empty())
        .map(|word| word.to_lowercase())
        .map(|word| {
            if word.starts_with("<:") && word.ends_with('>') {
                if let Some(end) = word.rfind(":") {
                    word[1..=end].to_string()
                } else {
                    word
                }
            } else {
                word
            }
        })
        .collect()
}

#[test]
fn query_words_match_reference() {
    for q in [
        "Hello World",
        "  spaced\tout\nquery  ",
        "<:Smile:12345> and <:x:> text",
        "<:> <: <:a:b:c:9> ÄÖÜ Σίσυφος",
        "",
        "   ",
        "ΣΑΣ <:Πάπια:1>",
    ] {
        assert_eq!(query_words(q), reference_words(q), "query {:?}", q);
    }
}

#[test]
fn query_words_custom_emoji() {
    assert_eq!(query_words("Hi <:Wave:99>"), vec!["hi".to_string(), ":wave:".to_string()]);
}

#[test]
fn query_tokens_decisions() {
    assert_eq!(query_tokens(vec![Some(3), Some(1)]), Ok(vec![3, 1]));
    assert_eq!(query_tokens(vec![Some(3), None, Some(1)]), Err(QueryError::NotInDataset));
    assert_eq!(query_tokens(vec![]), Err(QueryError::EmptyQuery));
}

#[test]
fn error_messages() {
    assert_eq!(QueryError::NotInDataset.message(), "**ERROR: Query not in dataset**");
    assert_eq!(QueryError::EmptyQuery.message(), "**ERROR: Query cannot be empty**");
    assert_eq!(QueryError::MissingWord(42).message(), "**ERROR: Failed to find word for token** `42`");
    assert_eq!(
        QueryError::GenerationFailed("boom".to_string()).message(),
        "**ERROR: Failed to generate** `boom`"
    );
    assert_eq!(QueryError::Discord("denied".to_string()).message(), "**ERROR:** `denied`");
}

fn words(ws: &[&str]) -> Vec<Generated> {
    ws.iter().map(|w| Generated::Word(w.to_string())).collect()
}

#[test]
fn render_plain_words() {
    let r = render_message("hello".to_string(), words(&["there", "friend"]), &GuildEmojis::NotInGuild);
    assert_eq!(r, Ok("hello there friend".to_string()));
}

#[test]
fn render_emoji_outside_guild_keeps_word() {
    let r = render_message("hi".to_string(), words(&[":wave:"]), &GuildEmojis::NotInGuild);
    assert_eq!(r, Ok("hi :wave:".to_string()));
}

#[test]
fn render_emoji_in_guild() {
    let guild = GuildEmojis::Listed(vec![
        ("smile".to_string(), 7),
        ("wave".to_string(), 123456789),
        ("wave".to_string(), 5),
    ]);
    let r = render_message("hi".to_string(), words(&[":wave:", "you", ":nope:", "x"]), &guild);
    assert_eq!(r, Ok("hi <:wave:123456789> you  x".to_string()));
}

#[test]
fn render_emoji_guild_unavailable() {
    let guild = GuildEmojis::Unavailable("forbidden".to_string());
    let r = render_message("hi".to_string(), words(&["a", ":wave:"]), &guild);
    assert_eq!(r, Err(QueryError::Discord("forbidden".to_string())));
    let r = render_message("hi".to_string(), words(&["a", "b"]), &guild);
    assert_eq!(r, Ok("hi a b".to_string()));
}

#[test]
fn render_failures() {
    let steps = vec![
        Generated::Word("a".to_string()),
        Generated::UnknownToken(9),
        Generated::Failed("late".to_string()),
    ];
    assert_eq!(
        render_message("q".to_string(), steps, &GuildEmojis::NotInGuild),
        Err(QueryError::MissingWord(9))
    );
    let steps = vec![Generated::Failed("early".to_string()), Generated::UnknownToken(9)];
    assert_eq!(
        render_message("q".to_string(), steps, &GuildEmojis::NotInGuild),
        Err(QueryError::GenerationFailed("early".to_string()))
    );
}

#[test]
fn reply_starts_with_query() {
    let r = render_message("the query".to_string(), words(&["x", "y"]), &GuildEmojis::NotInGuild).unwrap();
    assert!(r.starts_with("the query"));
}

#[test]
fn emoji_need() {
    assert!(needs_emojis(&words(&["a", ":b:"])));
    assert!(needs_emojis(&words(&[":"])));
    assert!(!needs_emojis(&words(&["a", "b:"])));
    assert!(!needs_emojis(&vec![Generated::UnknownToken(1)]));
}
