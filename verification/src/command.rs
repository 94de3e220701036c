//! Command lines for the commands that are run when a device comes or goes.
//!
//! A command is given as a template: a list of words in which the word `{}`
//! stands for the identifier of the device.

use crate::lexical::same_text;
use vstd::prelude::*;

verus! {

/// The words of `text`, as `str::split_whitespace` of the standard library
/// gives them.
pub uninterp spec fn whitespace_words(text: Seq<char>) -> Seq<Seq<char>>;

/// `word`, or `identifier` where `word` is the placeholder `{}`.
pub open spec fn filled_word(word: Seq<char>, identifier: Seq<char>) -> Seq<char> {
    if word == "{}"@ {
        identifier
    } else {
        word
    }
}

/// The words of `template`, with `identifier` in the place of each word that
/// is the placeholder `{}`.
pub open spec fn filled(template: Seq<Seq<char>>, identifier: Seq<char>) -> Seq<Seq<char>> {
    template.map_values(|word: Seq<char>| filled_word(word, identifier))
}

/// Splits `text` into its words with `str::split_whitespace` of the standard
/// library.
///
/// Not verified. The words depend on `text` alone; what counts as white space
/// is a table of the Unicode standard, so the contract names the result and
/// states nothing more of it.
#[verifier::external_body]
fn split_words(text: &str) -> (words: Vec<String>)
    ensures
        words.deep_view() == whitespace_words(text@),
{
    text.split_whitespace().map(String::from).collect()
}

/// Puts `identifier` in the place of each placeholder of `template`.
pub fn fill_template(template: &Vec<String>, identifier: &str) -> (command: Vec<String>)
    ensures
        command.deep_view() == filled(template.deep_view(), identifier@),
{
    let mut command: Vec<String> = Vec::new();
    let mut i: usize = 0;
    while i < template.len()
        invariant
            i <= template@.len(),
            command@.len() == i,
            forall|k: int|
                0 <= k < i ==> command@[k]@ == filled_word(template@[k]@, identifier@),
        decreases template@.len() - i,
    {
        let word = &template[i];
        if same_text(word.as_str(), "{}") {
            command.push(identifier.to_owned());
        } else {
            command.push(word.clone());
        }
        i = i + 1;
    }
    assert(command.deep_view() =~= filled(template.deep_view(), identifier@));
    command
}

/// The command line for a template that is given as one text: its words,
/// with `identifier` in the place of each placeholder.
pub fn fill_command_line(template: &str, identifier: &str) -> (command: Vec<String>)
    ensures
        command.deep_view() == filled(whitespace_words(template@), identifier@),
{
    let words = split_words(template);
    fill_template(&words, identifier)
}

} // verus!
