//! What a word of a command says of paths.

use vstd::prelude::*;

use crate::location;
use crate::number;
use crate::path;
use crate::path::FsPath;
use crate::text;

verus! {

/// Whether a word is no path: an option, a substitution, an address or an assignment.
pub open spec fn is_no_path(word: Seq<char>) -> bool {
    ||| word.len() == 0
    ||| text::begins(word, seq!['-'])
    ||| text::has_infix(word, seq!['$', '('])
    ||| word.contains('`')
    ||| text::has_infix(word, seq!['<', '('])
    ||| text::has_infix(word, seq!['>', '('])
    ||| text::has_infix(word, seq![':', '/', '/'])
    ||| word.contains('@') && word.contains(':')
    ||| word.contains('=') && !is_marked_path(word)
}

/// Whether a word begins as a path does.
pub open spec fn is_marked_path(word: Seq<char>) -> bool {
    ||| text::begins(word, seq!['/'])
    ||| text::begins(word, seq!['.', '/'])
    ||| text::begins(word, seq!['.', '.', '/'])
    ||| text::begins(word, seq!['~'])
}

/// Whether a word is no path.
pub fn should_skip_word(word: &str) -> (r: bool)
    ensures
        r == is_no_path(word@),
{
    let chars = text::chars_of(word);
    let s = chars.as_slice();
    let dash = ['-'];
    let command = ['$', '('];
    let input = ['<', '('];
    let output = ['>', '('];
    let scheme = [':', '/', '/'];
    let slash = ['/'];
    let dot_slash = ['.', '/'];
    let dots_slash = ['.', '.', '/'];
    let tilde = ['~'];
    assert(dash@ =~= seq!['-']);
    assert(command@ =~= seq!['$', '(']);
    assert(input@ =~= seq!['<', '(']);
    assert(output@ =~= seq!['>', '(']);
    assert(scheme@ =~= seq![':', '/', '/']);
    assert(slash@ =~= seq!['/']);
    assert(dot_slash@ =~= seq!['.', '/']);
    assert(dots_slash@ =~= seq!['.', '.', '/']);
    assert(tilde@ =~= seq!['~']);
    if s.len() == 0 || text::begins_with(s, &dash) {
        return true;
    }
    if text::contains_text(s, &command) || text::contains_symbol(s, '`') || text::contains_text(
        s,
        &input,
    ) || text::contains_text(s, &output) {
        return true;
    }
    if text::contains_text(s, &scheme) || text::contains_symbol(s, '@') && text::contains_symbol(
        s,
        ':',
    ) {
        return true;
    }
    text::contains_symbol(s, '=') && !(text::begins_with(s, &slash) || text::begins_with(
        s,
        &dot_slash,
    ) || text::begins_with(s, &dots_slash) || text::begins_with(s, &tilde))
}

/// Whether a word names an entry of the directory stack: a sign and digits.
pub open spec fn is_stack_reference(word: Seq<char>) -> bool {
    &&& word.len() > 1
    &&& word[0] == '+' || word[0] == '-'
    &&& number::all_digits(word.skip(1))
}

/// Whether a word names an entry of the directory stack.
pub fn is_pushd_stack_reference(word: &str) -> (r: bool)
    ensures
        r == is_stack_reference(word@),
{
    let chars = text::chars_of(word);
    if chars.len() < 2 || !(chars[0] == '+' || chars[0] == '-') {
        return false;
    }
    let mut i: usize = 1;
    while i < chars.len()
        invariant
            1 <= i <= chars@.len(),
            chars@ == word@,
            forall|j: int| 1 <= j < i ==> number::is_digit(#[trigger] chars@[j]),
        decreases chars@.len() - i,
    {
        if !('0' <= chars[i] && chars[i] <= '9') {
            assert(!number::is_digit(word@.skip(1)[i as int - 1]));
            return false;
        }
        i += 1;
    }
    assert forall|j: int| 0 <= j < word@.skip(1).len() implies number::is_digit(
        #[trigger] word@.skip(1)[j],
    ) by {
        assert(word@.skip(1)[j] == chars@[j + 1]);
    }
    true
}

/// The directory that a command to change it names.
pub enum Target {
    /// A directory that the words do not tell.
    Unknown,
    /// None is named.
    Nothing,
    /// The directory that a word names.
    Named(Seq<char>),
}

/// The directory that the words from `i` on name. Options are passed over; `-` and, for
/// `pushd`, an entry of the directory stack are not known.
pub open spec fn target_from(words: Seq<Seq<char>>, i: int, pushd: bool) -> Target
    decreases words.len() - i,
{
    if i < 0 || i >= words.len() {
        Target::Nothing
    } else {
        let word = words[i];
        if word == seq!['-'] {
            Target::Unknown
        } else if word == seq!['-', '-'] {
            target_from(words, i + 1, pushd)
        } else if pushd && is_stack_reference(word) {
            Target::Unknown
        } else if text::begins(word, seq!['-']) {
            target_from(words, i + 1, pushd)
        } else {
            Target::Named(word)
        }
    }
}

/// Whether a word is the command `cd`.
pub open spec fn is_cd(word: Seq<char>) -> bool {
    word == seq!['c', 'd']
}

/// Whether a word is the command `pushd`.
pub open spec fn is_pushd(word: Seq<char>) -> bool {
    word == seq!['p', 'u', 's', 'h', 'd']
}

/// The directory in which a command leaves the shell, if it is a command to change it and
/// tells which: `cd` alone goes home.
pub open spec fn cwd_after(cwd: Seq<u8>, words: Seq<Seq<char>>, home: Seq<u8>) -> Option<Seq<u8>> {
    if words.len() == 0 || !(is_cd(words[0]) || is_pushd(words[0])) {
        None
    } else {
        match target_from(words, 1, is_pushd(words[0])) {
            Target::Unknown => None,
            Target::Nothing => if is_pushd(words[0]) {
                None
            } else {
                Some(home)
            },
            Target::Named(word) => if word.len() == 0 || word == seq!['~'] {
                Some(home)
            } else if location::home_relative(word) is Some {
                Some(path::joined(home, vstd::utf8::encode_utf8(word.skip(2))))
            } else if text::begins(word, seq!['~']) {
                None
            } else {
                Some(path::joined(cwd, vstd::utf8::encode_utf8(word)))
            },
        }
    }
}

/// Whether a word is `cd` or `pushd`.
pub fn changes_directory(word: &str) -> (r: bool)
    ensures
        r == (is_cd(word@) || is_pushd(word@)),
{
    let chars = text::chars_of(word);
    let cd = ['c', 'd'];
    let pushd = ['p', 'u', 's', 'h', 'd'];
    assert(cd@ =~= seq!['c', 'd']);
    assert(pushd@ =~= seq!['p', 'u', 's', 'h', 'd']);
    text::same_text(chars.as_slice(), &cd) || text::same_text(chars.as_slice(), &pushd)
}

/// The directory in which a command leaves the shell. The caller makes it absolute, and takes
/// it only where it is a directory.
pub fn infer_post_cwd(logged_cwd: &FsPath, words: &[String], home: &FsPath) -> (r: Option<FsPath>)
    ensures
        path::path_option(r) == cwd_after(logged_cwd@, text::texts(words@), home@),
{
    let ghost all = text::texts(words@);
    if words.len() == 0 || !changes_directory(words[0].as_str()) {
        return None;
    }
    let command = text::chars_of(words[0].as_str());
    let pushd_text = ['p', 'u', 's', 'h', 'd'];
    let dash = ['-'];
    let dashes = ['-', '-'];
    let tilde = ['~'];
    let tilde_slash = ['~', '/'];
    assert(pushd_text@ =~= seq!['p', 'u', 's', 'h', 'd']);
    assert(dash@ =~= seq!['-']);
    assert(dashes@ =~= seq!['-', '-']);
    assert(tilde@ =~= seq!['~']);
    assert(tilde_slash@ =~= seq!['~', '/']);
    let pushd = text::same_text(command.as_slice(), &pushd_text);
    let mut i: usize = 1;
    while i < words.len()
        invariant
            1 <= i <= words@.len(),
            all == text::texts(words@),
            pushd == is_pushd(all[0]),
            is_cd(all[0]) || is_pushd(all[0]),
            dash@ == seq!['-'],
            dashes@ == seq!['-', '-'],
            tilde@ == seq!['~'],
            tilde_slash@ == seq!['~', '/'],
            target_from(all, i as int, pushd) == target_from(all, 1, pushd),
        decreases words@.len() - i,
    {
        let word = text::chars_of(words[i].as_str());
        let s = word.as_slice();
        assert(all[i as int] == s@);
        if text::same_text(s, &dash) {
            return None;
        }
        if !text::same_text(s, &dashes) {
            if pushd && is_pushd_stack_reference(words[i].as_str()) {
                return None;
            }
            if !text::begins_with(s, &dash) {
                if s.len() == 0 {
                    return Some(home.duplicate());
                }
                if text::begins_with(s, &tilde) {
                    return location::expand_tilde(words[i].as_str(), home);
                }
                assert(s@ != seq!['~'] && !text::begins(s@, seq!['~', '/'])) by {
                    if s@ == seq!['~'] || text::begins(s@, seq!['~', '/']) {
                        if text::begins(s@, seq!['~', '/']) {
                            assert(s@.take(2)[0] == '~');
                        }
                        assert(s@.take(1) =~= seq!['~']);
                    }
                }
                return Some(logged_cwd.join(&FsPath::from_text(words[i].as_str())));
            }
        }
        i += 1;
    }
    if pushd {
        None
    } else {
        Some(home.duplicate())
    }
}

} // verus!
