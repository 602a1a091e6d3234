//! Bookkeeping of the bot's models: where they are stored, which one a user
//! has loaded, how a downloaded file is named, and how a new model's name
//! and id are derived.

use vstd::prelude::*;
use vstd::string::*;
use vstd::utf8::{decode_utf8, valid_utf8};
use std::string::FromUtf8Error;
use crate::text::{
    chars_of, char_rows, join_with, law_split_first_piece, law_split_rejoins, slice_chars, split_on,
    split_spec, starts_with, string_of, trim, trim_char, trim_char_spec, trim_spec,
};

verus! {

/// The SQLite database file.
pub const DB_NAME: &'static str = "markov_chains.db";

/// The directory holding the model files, each named by its model id.
pub const MODEL_DIR: &'static str = "models";

/// The name of the model loaded for users who have not loaded another one.
pub const DEFAULT_MODEL_NAME: &'static str = "kleden4";

/// The id of the default model.
pub const DEFAULT_MODEL_ID: &'static str = "16291105416022699669";

/// The version of the Markov-chain format the models are built with.
pub const MARKOV_CHAINS_VERSION: &'static str = "1.4.4";

/// The path of the file holding the model with the given id.
pub fn model_path(id: &str) -> (path: String)
    ensures
        path@ == MODEL_DIR@ + seq!['/'] + id@,
{
    let mut path = String::from_str(MODEL_DIR);
    path.push('/');
    path.append(id);
    path
}

/// The model a user has loaded: the one stored for the user, else the
/// default model (also when the stored row could not be read).
pub fn loaded_model_or_default(stored: Option<String>) -> (id: String)
    ensures
        id@ == match stored {
            Some(s) => s@,
            None => DEFAULT_MODEL_ID@,
        },
{
    match stored {
        Some(s) => s,
        None => String::from_str(DEFAULT_MODEL_ID),
    }
}

/// The key that names a file in a `Content-Disposition` header.
pub open spec fn filename_key() -> Seq<char> {
    seq!['f', 'i', 'l', 'e', 'n', 'a', 'm', 'e', '=']
}

/// The file name given by the first `;`-separated part of the header that,
/// trimmed, starts with `filename=`: what follows, without surrounding quotes.
pub open spec fn first_filename(parts: Seq<Seq<char>>) -> Option<Seq<char>>
    decreases parts.len(),
{
    if parts.len() == 0 {
        None
    } else {
        let part = trim_spec(parts[0]);
        if part.len() >= 9 && part.take(9) == filename_key() {
            Some(trim_char_spec(part.skip(9), '"'))
        } else {
            first_filename(parts.drop_first())
        }
    }
}

/// The part that names the file decides it: the first `;`-separated part
/// of the header that, trimmed, starts with `filename=`, whatever follows.
pub proof fn law_filename_first_part(header: Seq<char>, k: int)
    requires
        0 <= k < split_spec(header, ';').len(),
        trim_spec(split_spec(header, ';')[k]).len() >= 9,
        trim_spec(split_spec(header, ';')[k]).take(9) == filename_key(),
        forall|j: int|
            0 <= j < k ==> !(trim_spec(#[trigger] split_spec(header, ';')[j]).len() >= 9 && trim_spec(
                split_spec(header, ';')[j],
            ).take(9) == filename_key()),
    ensures
        first_filename(split_spec(header, ';')) == Some(
            trim_char_spec(trim_spec(split_spec(header, ';')[k]).skip(9), '"'),
        ),
{
    lemma_first_filename_at(split_spec(header, ';'), k);
}

/// A header none of whose parts, trimmed, starts with `filename=` gives no
/// file name.
pub proof fn law_filename_absent(header: Seq<char>)
    requires
        forall|j: int|
            0 <= j < split_spec(header, ';').len() ==> !(trim_spec(
                #[trigger] split_spec(header, ';')[j],
            ).len() >= 9 && trim_spec(split_spec(header, ';')[j]).take(9) == filename_key()),
    ensures
        first_filename(split_spec(header, ';')) is None,
{
    lemma_first_filename_none(split_spec(header, ';'));
}

proof fn lemma_first_filename_at(parts: Seq<Seq<char>>, k: int)
    requires
        0 <= k < parts.len(),
        trim_spec(parts[k]).len() >= 9,
        trim_spec(parts[k]).take(9) == filename_key(),
        forall|j: int|
            0 <= j < k ==> !(trim_spec(#[trigger] parts[j]).len() >= 9 && trim_spec(parts[j]).take(9)
                == filename_key()),
    ensures
        first_filename(parts) == Some(trim_char_spec(trim_spec(parts[k]).skip(9), '"')),
    decreases k,
{
    if k > 0 {
        let rest = parts.drop_first();
        assert forall|j: int| 0 <= j < k - 1 implies !(trim_spec(#[trigger] rest[j]).len() >= 9
            && trim_spec(rest[j]).take(9) == filename_key()) by {
            assert(rest[j] == parts[j + 1]);
        }
        assert(rest[k - 1] == parts[k]);
        lemma_first_filename_at(rest, k - 1);
    }
}

proof fn lemma_first_filename_none(parts: Seq<Seq<char>>)
    requires
        forall|j: int|
            0 <= j < parts.len() ==> !(trim_spec(#[trigger] parts[j]).len() >= 9 && trim_spec(
                parts[j],
            ).take(9) == filename_key()),
    ensures
        first_filename(parts) is None,
    decreases parts.len(),
{
    if parts.len() > 0 {
        let rest = parts.drop_first();
        assert forall|j: int| 0 <= j < rest.len() implies !(trim_spec(#[trigger] rest[j]).len() >= 9
            && trim_spec(rest[j]).take(9) == filename_key()) by {
            assert(rest[j] == parts[j + 1]);
        }
        lemma_first_filename_none(rest);
    }
}

/// The file name that a `Content-Disposition` header gives, if any.
pub fn filename_from_disposition(header: &str) -> (name: Option<String>)
    ensures
        match first_filename(split_spec(header@, ';')) {
            Some(n) => name matches Some(s) && s@ == n,
            None => name is None,
        },
{
    let chars = chars_of(header);
    let parts = split_on(&chars, ';');
    let mut key: Vec<char> = Vec::new();
    key.push('f');
    key.push('i');
    key.push('l');
    key.push('e');
    key.push('n');
    key.push('a');
    key.push('m');
    key.push('e');
    key.push('=');
    proof {
        assert(key@ =~= filename_key());
    }
    let ghost all = char_rows(parts@);
    let mut i: usize = 0;
    proof {
        assert(all.skip(0) =~= all);
    }
    while i < parts.len()
        invariant
            i <= parts.len(),
            all == char_rows(parts@),
            all == split_spec(header@, ';'),
            key@ == filename_key(),
            first_filename(all) == first_filename(all.skip(i as int)),
        decreases parts.len() - i,
    {
        proof {
            assert(all.skip(i as int).drop_first() =~= all.skip(i + 1));
            assert(all.skip(i as int)[0] == parts@[i as int]@);
        }
        let part = trim(&parts[i]);
        if starts_with(&part, &key) {
            let value = slice_chars(&part, 9, part.len());
            proof {
                assert(value@ =~= part@.skip(9));
            }
            let stripped = trim_char(&value, '"');
            return Some(string_of(&stripped));
        }
        i = i + 1;
    }
    None
}

/// The name under which a download is stored: the file name from the
/// `Content-Disposition` header when it gives one, else `fallback` (the bot
/// uses the time of the download).
pub fn download_name(header: Option<String>, fallback: String) -> (name: String)
    ensures
        name@ == match header {
            Some(h) => match first_filename(split_spec(h@, ';')) {
                Some(n) => n,
                None => fallback@,
            },
            None => fallback@,
        },
{
    match header {
        Some(h) => match filename_from_disposition(h.as_str()) {
            Some(n) => n,
            None => fallback,
        },
        None => fallback,
    }
}

/// The name of a new model: the name given, else the file's name, cut at
/// its first `.`.
pub fn model_base_name(model_name: Option<String>, file_name: String) -> (name: String)
    ensures
        name@ == split_spec(
            match model_name {
                Some(n) => n@,
                None => file_name@,
            },
            '.',
        )[0],
        ({
            let full = match model_name {
                Some(n) => n@,
                None => file_name@,
            };
            name@.len() <= full.len() && name@ == full.take(name@.len() as int) && !name@.contains('.')
                && (name@.len() < full.len() ==> full[name@.len() as int] == '.')
        }),
{
    let full = match model_name {
        Some(n) => n,
        None => file_name,
    };
    proof {
        law_split_first_piece(full@, '.');
    }
    let chars = chars_of(full.as_str());
    let pieces = split_on(&chars, '.');
    proof {
        assert(char_rows(pieces@)[0] == pieces@[0]@);
    }
    string_of(&pieces[0])
}

/// The 64-bit XXH3 hash of some bytes with a seed.
pub uninterp spec fn xxh3_64(data: Seq<u8>, seed: u64) -> u64;

/// Calls `xxh3::hash64_with_seed`; the result is only named.
#[verifier::external_body]
fn hash64_with_seed(data: &[u8], seed: u64) -> (h: u64)
    ensures
        h == xxh3_64(data@, seed),
{
    xxh3::hash64_with_seed(data, seed)
}

/// The id of a model: the XXH3 hash of its name's UTF-8 bytes, seeded with
/// the Unix time (in seconds) at which it is registered.
pub fn model_id(name: &str, timestamp: i64) -> (id: u64)
    ensures
        id == xxh3_64(name.spec_bytes(), timestamp as u64),
{
    hash64_with_seed(name.as_bytes(), timestamp as u64)
}

/// The error of a UTF-8 decoding that failed.
#[verifier::external_type_specification]
#[verifier::external_body]
pub struct ExFromUtf8Error(FromUtf8Error);

/// Calls `String::from_utf8`: the text that the bytes encode when they are
/// valid UTF-8, else the decoding error.
#[verifier::external_body]
fn string_from_utf8(bytes: Vec<u8>) -> (r: Result<String, FromUtf8Error>)
    ensures
        r is Ok <==> valid_utf8(bytes@),
        r matches Ok(s) ==> s@ == decode_utf8(bytes@),
{
    String::from_utf8(bytes)
}

/// The lines of a plain messages file, from which a model is built: the
/// file's text split at each line feed (empty lines included), or the
/// decoding error when the file is not UTF-8.
pub fn message_lines(content: Vec<u8>) -> (r: Result<Vec<String>, FromUtf8Error>)
    ensures
        r is Ok <==> valid_utf8(content@),
        r matches Ok(lines) ==> lines@.map_values(|l: String| l@) == split_spec(
            decode_utf8(content@),
            '\n',
        ),
        r matches Ok(lines) ==> join_with(lines@.map_values(|l: String| l@), '\n') == decode_utf8(
            content@,
        ) && forall|i: int| 0 <= i < lines@.len() ==> !(#[trigger] lines@[i])@.contains('\n'),
{
    let text = match string_from_utf8(content) {
        Ok(text) => text,
        Err(e) => {
            return Err(e);
        },
    };
    let chars = chars_of(text.as_str());
    let pieces = split_on(&chars, '\n');
    let mut lines: Vec<String> = Vec::new();
    let mut i: usize = 0;
    while i < pieces.len()
        invariant
            i <= pieces.len(),
            lines.len() == i,
            forall|j: int| 0 <= j < i ==> (#[trigger] lines@[j])@ == pieces@[j]@,
        decreases pieces.len() - i,
    {
        lines.push(string_of(&pieces[i]));
        i = i + 1;
    }
    proof {
        assert(lines@.map_values(|l: String| l@) =~= char_rows(pieces@));
        law_split_rejoins(text@, '\n');
        assert forall|i: int| 0 <= i < lines@.len() implies !(#[trigger] lines@[i])@.contains('\n') by {
            assert(lines@.map_values(|l: String| l@)[i] == lines@[i]@);
        }
    }
    Ok(lines)
}

} // verus!
