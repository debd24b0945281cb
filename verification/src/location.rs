//! From what is typed to a path, and from a path to what is shown.

use vstd::prelude::*;

use crate::path;
use crate::path::FsPath;
use crate::text;
use crate::utf8;

verus! {

/// What follows `~/` in a text that begins with it.
pub open spec fn home_relative(s: Seq<char>) -> Option<Seq<char>> {
    if text::begins(s, seq!['~', '/']) {
        Some(s.skip(2))
    } else {
        None
    }
}

/// The path that a word of a command names: `~` is the home directory, and `~` before a user's
/// name is not resolved.
pub open spec fn expanded(token: Seq<char>, home: Seq<u8>) -> Option<Seq<u8>> {
    if token == seq!['~'] {
        Some(home)
    } else if home_relative(token) is Some {
        Some(path::joined(home, vstd::utf8::encode_utf8(home_relative(token)->0)))
    } else if text::begins(token, seq!['~']) {
        None
    } else {
        Some(vstd::utf8::encode_utf8(token))
    }
}

/// The path that names the text `chars`.
fn path_of_chars(chars: &[char]) -> (p: FsPath)
    ensures
        p@ == vstd::utf8::encode_utf8(chars@),
{
    let s = text::string_of(chars);
    FsPath::from_text(s.as_str())
}

/// The path that a word of a command names, with `~` standing for `home`.
pub fn expand_tilde(token: &str, home: &FsPath) -> (r: Option<FsPath>)
    ensures
        path::path_option(r) == expanded(token@, home@),
{
    let chars = text::chars_of(token);
    let s = chars.as_slice();
    let tilde = ['~'];
    let tilde_slash = ['~', '/'];
    assert(tilde@ =~= seq!['~']);
    assert(tilde_slash@ =~= seq!['~', '/']);
    if text::same_text(s, &tilde) {
        Some(home.duplicate())
    } else if text::begins_with(s, &tilde_slash) {
        let rest = vstd::slice::slice_subrange(s, 2, s.len());
        assert(rest@ =~= token@.skip(2));
        Some(home.join(&path_of_chars(rest)))
    } else if text::begins_with(s, &tilde) {
        None
    } else {
        Some(path_of_chars(s))
    }
}

/// The directory that the user asks for, not yet made absolute.
pub open spec fn input_dir(dir: Seq<char>, home: Seq<u8>, pwd: Seq<u8>) -> Seq<u8> {
    if dir == seq!['~'] {
        home
    } else if home_relative(dir) is Some {
        path::joined(home, vstd::utf8::encode_utf8(home_relative(dir)->0))
    } else if text::begins(dir, seq!['/']) {
        vstd::utf8::encode_utf8(dir)
    } else if text::begins(dir, seq!['.', '/']) {
        path::joined(pwd, vstd::utf8::encode_utf8(dir.skip(2)))
    } else {
        path::joined(pwd, vstd::utf8::encode_utf8(dir))
    }
}

/// The directory that the user asks for, seen from the home and the working directory. The
/// caller makes it absolute (`absolutize_existing_or_lexical`).
pub fn resolve_input_dir(dir: &str, home: &FsPath, pwd: &FsPath) -> (p: FsPath)
    ensures
        p@ == input_dir(dir@, home@, pwd@),
{
    let chars = text::chars_of(dir);
    let s = chars.as_slice();
    let tilde = ['~'];
    let tilde_slash = ['~', '/'];
    let slash = ['/'];
    let dot_slash = ['.', '/'];
    assert(tilde@ =~= seq!['~']);
    assert(tilde_slash@ =~= seq!['~', '/']);
    assert(slash@ =~= seq!['/']);
    assert(dot_slash@ =~= seq!['.', '/']);
    if text::same_text(s, &tilde) {
        home.duplicate()
    } else if text::begins_with(s, &tilde_slash) {
        let rest = vstd::slice::slice_subrange(s, 2, s.len());
        assert(rest@ =~= dir@.skip(2));
        home.join(&path_of_chars(rest))
    } else if text::begins_with(s, &slash) {
        path_of_chars(s)
    } else if text::begins_with(s, &dot_slash) {
        let rest = vstd::slice::slice_subrange(s, 2, s.len());
        assert(rest@ =~= dir@.skip(2));
        pwd.join(&path_of_chars(rest))
    } else {
        pwd.join(&path_of_chars(s))
    }
}

/// A path as text.
pub fn path_string(path: &FsPath) -> (r: String)
    ensures
        r@ == utf8::shown_text(path@),
{
    utf8::text_lossy(path.bytes.as_slice())
}

/// Whether a text ends in `/`.
pub open spec fn ends_in_slash(s: Seq<char>) -> bool {
    s.len() > 0 && s.last() == '/'
}

/// A text with `/` at its end, where it has none yet.
pub open spec fn slash_ended(s: Seq<char>) -> Seq<char> {
    if ends_in_slash(s) {
        s
    } else {
        s.push('/')
    }
}

/// The text with `/` at its end.
pub fn end_in_slash(s: String) -> (r: String)
    ensures
        r@ == slash_ended(s@),
{
    let chars = text::chars_of(s.as_str());
    let mut out = s;
    if !(chars.len() > 0 && chars[chars.len() - 1] == '/') {
        out.push('/');
    }
    out
}

/// A path as text with `/` at its end.
pub fn with_trailing_separator(path: &FsPath) -> (r: String)
    ensures
        r@ == slash_ended(utf8::shown_text(path@)),
{
    end_in_slash(path_string(path))
}

/// Whether a displayed directory gets a `/` behind it.
pub open spec fn needs_marker(display: Seq<char>, is_dir: bool) -> bool {
    is_dir && display != seq!['/'] && !ends_in_slash(display)
}

/// What stands behind a displayed path: `/` for a directory that does not end in it.
pub open spec fn dir_marker(display: Seq<char>, is_dir: bool) -> Seq<char> {
    if needs_marker(display, is_dir) {
        seq!['/']
    } else {
        Seq::empty()
    }
}

/// Whether a displayed directory gets a `/` behind it.
pub fn takes_marker(display: &str, is_dir: bool) -> (r: bool)
    ensures
        r == needs_marker(display@, is_dir),
{
    let chars = text::chars_of(display);
    is_dir && !(chars.len() > 0 && chars[chars.len() - 1] == '/')
}

/// The text shown for a candidate without colours: a directory ends in `/`.
pub fn display_with_dir_marker(display: &str, is_dir: bool) -> (r: String)
    ensures
        r@ == display@ + dir_marker(display@, is_dir),
{
    let mut text = String::new();
    text.append(display);
    if takes_marker(display, is_dir) {
        text.push('/');
    }
    assert(text@ =~= display@ + dir_marker(display@, is_dir));
    text
}

/// The prefixes under which paths are shown from the home directory.
pub open spec fn is_home_prefix(display_prefix: Seq<char>) -> bool {
    display_prefix == seq!['~'] || text::begins(display_prefix, seq!['~', '/'])
}

/// The text shown for a path: from `~` where the user typed it so, from the working directory
/// where the user typed a relative path, and else the whole path.
pub open spec fn displayed(
    p: Seq<u8>,
    home: Seq<u8>,
    pwd: Seq<u8>,
    display_prefix: Seq<char>,
    relative_root: bool,
) -> Seq<char> {
    if is_home_prefix(display_prefix) && path::starts_with_path(p, home) {
        if path::same_path(p, home) {
            seq!['~']
        } else {
            seq!['~', '/'] + utf8::shown_text(path::without_prefix(p, home)->0)
        }
    } else if relative_root && path::starts_with_path(p, pwd) && !path::same_path(p, pwd) {
        utf8::shown_text(path::without_prefix(p, pwd)->0)
    } else {
        utf8::shown_text(p)
    }
}

/// The text shown for a path.
pub fn display_path(
    path: &FsPath,
    home: &FsPath,
    pwd: &FsPath,
    display_prefix: &str,
    relative_root: bool,
) -> (r: String)
    ensures
        r@ == displayed(path@, home@, pwd@, display_prefix@, relative_root),
{
    let chars = text::chars_of(display_prefix);
    let tilde = ['~'];
    let tilde_slash = ['~', '/'];
    assert(tilde@ =~= seq!['~']);
    assert(tilde_slash@ =~= seq!['~', '/']);
    let from_home = text::same_text(chars.as_slice(), &tilde) || text::begins_with(
        chars.as_slice(),
        &tilde_slash,
    );
    if from_home && path::path_starts_with(path, home) {
        let mut out = String::new();
        out.push('~');
        if !path.same_as(home) {
            out.push('/');
            if let Some(rest) = path.strip_prefix(home) {
                let shown = path_string(&rest);
                out.append(shown.as_str());
            }
        }
        assert(out@ =~= displayed(path@, home@, pwd@, display_prefix@, relative_root));
        return out;
    }
    if relative_root && path::path_starts_with(path, pwd) && !path.same_as(pwd) {
        if let Some(rest) = path.strip_prefix(pwd) {
            return path_string(&rest);
        }
    }
    path_string(path)
}

} // verus!
