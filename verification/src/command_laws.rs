//! What holds of the words of commands, and of the paths that they name.

use vstd::prelude::*;

use crate::number;
use crate::path;
use crate::path_laws;
use crate::text;
use crate::tokens;
use crate::tokens::Quote;
use crate::utf8;
use crate::words;

verus! {

/// The words of a command line are read from its beginning, outside of quotes.
pub proof fn law_words_are_read_from_the_beginning(command: Seq<char>)
    ensures
        tokens::words(command) == tokens::words_from(command, Seq::empty(), Quote::Plain),
{
}

/// Where a command line ends, the word at hand ends, quoted or not; an empty one is none.
pub proof fn law_the_end_ends_a_word(current: Seq<char>, quote: Quote)
    ensures
        current.len() == 0 ==> tokens::words_from(Seq::empty(), current, quote)
            == Seq::<Seq<char>>::empty(),
        current.len() > 0 ==> tokens::words_from(Seq::empty(), current, quote) == seq![current],
{
}

/// Text outside of quotes is taken into the word as it is, where it holds no blank, no operator,
/// no quote and no backslash.
pub proof fn law_plain_text_is_taken_as_it_is(s: Seq<char>, rest: Seq<char>, current: Seq<char>)
    requires
        forall|i: int|
            0 <= i < s.len() ==> {
                &&& #[trigger] s[i] != ' '
                &&& s[i] != '\t'
                &&& s[i] != '\n'
                &&& s[i] != '\r'
                &&& s[i] != ';'
                &&& s[i] != '|'
                &&& s[i] != '&'
                &&& s[i] != '\''
                &&& s[i] != '"'
                &&& s[i] != '\\'
            },
    ensures
        tokens::words_from(s + rest, current, Quote::Plain) == tokens::words_from(
            rest,
            current + s,
            Quote::Plain,
        ),
    decreases s.len(),
{
    let all = s + rest;
    if s.len() == 0 {
        assert(all =~= rest);
        assert(current + s =~= current);
    } else {
        let others = s.skip(1);
        assert(all[0] == s[0]);
        assert(all.skip(1) =~= others + rest);
        assert forall|i: int| 0 <= i < others.len() implies ({
            &&& #[trigger] others[i] != ' '
            &&& others[i] != '\t'
            &&& others[i] != '\n'
            &&& others[i] != '\r'
            &&& others[i] != ';'
            &&& others[i] != '|'
            &&& others[i] != '&'
            &&& others[i] != '\''
            &&& others[i] != '"'
            &&& others[i] != '\\'
        }) by {
            assert(others[i] == s[i + 1]);
        }
        law_plain_text_is_taken_as_it_is(others, rest, current.push(s[0]));
        assert(current.push(s[0]) + others =~= current + s);
    }
}

/// A blank or an operator outside of quotes ends the word at hand, if it is not empty, and is no
/// part of any word.
pub proof fn law_blanks_and_operators_end_a_word(c: char, rest: Seq<char>, current: Seq<char>)
    requires
        c == ' ' || c == '\t' || c == '\n' || c == '\r' || c == ';' || c == '|' || c == '&',
    ensures
        tokens::words_from(seq![c] + rest, current, Quote::Plain) == (if current.len() == 0 {
            tokens::words_from(rest, Seq::empty(), Quote::Plain)
        } else {
            seq![current] + tokens::words_from(rest, Seq::empty(), Quote::Plain)
        }),
{
    let all = seq![c] + rest;
    assert(all[0] == c);
    assert(all.skip(1) =~= rest);
    assert(Seq::<Seq<char>>::empty() + tokens::words_from(rest, Seq::empty(), Quote::Plain)
        =~= tokens::words_from(rest, Seq::empty(), Quote::Plain));
}

/// Between single quotes everything is taken as it is, and the quotes are no part of the word.
pub proof fn law_single_quotes_keep_everything(s: Seq<char>, rest: Seq<char>, current: Seq<char>)
    requires
        forall|i: int| 0 <= i < s.len() ==> #[trigger] s[i] != '\'',
    ensures
        tokens::words_from(seq!['\''] + (s + rest), current, Quote::Plain) == tokens::words_from(
            rest,
            current + s,
            Quote::Single,
        ),
        tokens::words_from(seq!['\''] + rest, current, Quote::Single) == tokens::words_from(
            rest,
            current,
            Quote::Plain,
        ),
{
    let all = seq!['\''] + (s + rest);
    assert(all.skip(1) =~= s + rest);
    assert((seq!['\''] + rest).skip(1) =~= rest);
    tokens::lemma_between_quotes(s, rest, current, Quote::Single);
}

/// Between double quotes everything but a backslash is taken as it is, and the quotes are no part
/// of the word.
pub proof fn law_double_quotes_keep_all_but_backslashes(
    s: Seq<char>,
    rest: Seq<char>,
    current: Seq<char>,
)
    requires
        forall|i: int| 0 <= i < s.len() ==> #[trigger] s[i] != '"' && s[i] != '\\',
    ensures
        tokens::words_from(seq!['"'] + rest, current, Quote::Plain) == tokens::words_from(
            rest,
            current,
            Quote::Double,
        ),
        tokens::words_from(s + rest, current, Quote::Double) == tokens::words_from(
            rest,
            current + s,
            Quote::Double,
        ),
        tokens::words_from(seq!['"'] + rest, current, Quote::Double) == tokens::words_from(
            rest,
            current,
            Quote::Plain,
        ),
{
    assert((seq!['"'] + rest).skip(1) =~= rest);
    tokens::lemma_between_quotes(s, rest, current, Quote::Double);
}

/// A backslash that is not between single quotes takes the next character into the word, whatever
/// it is, and is no part of the word itself; at the end it takes nothing.
pub proof fn law_a_backslash_takes_the_next_character(
    c: char,
    rest: Seq<char>,
    current: Seq<char>,
    quote: Quote,
)
    requires
        quote == Quote::Plain || quote == Quote::Double,
    ensures
        tokens::words_from(seq!['\\', c] + rest, current, quote) == tokens::words_from(
            rest,
            current.push(c),
            quote,
        ),
        tokens::words_from(seq!['\\'], current, quote) == tokens::words_from(
            Seq::empty(),
            current,
            quote,
        ),
{
    let all = seq!['\\', c] + rest;
    assert(all.skip(1)[0] == c);
    assert(all.skip(1).skip(1) =~= rest);
    assert(seq!['\\'].skip(1) =~= Seq::<char>::empty());
}

/// Whether a word is passed over depends on its characters so, and on nothing else: it is empty or
/// an option, it holds a substitution or an address, or it holds `=` and does not begin as a path
/// does.
pub proof fn law_words_are_passed_over_for_their_characters(word: Seq<char>)
    ensures
        words::is_no_path(word) <==> {
            ||| word.len() == 0
            ||| word[0] == '-'
            ||| exists|k: int| 0 <= k < word.len() && #[trigger] word[k] == '`'
            ||| exists|k: int|
                0 <= k < word.len() - 1 && (#[trigger] word[k] == '$' || word[k] == '<' || word[k]
                    == '>') && word[k + 1] == '('
            ||| exists|k: int|
                0 <= k < word.len() - 2 && #[trigger] word[k] == ':' && word[k + 1] == '/'
                    && word[k + 2] == '/'
            ||| (exists|k: int| 0 <= k < word.len() && #[trigger] word[k] == '@') && (exists|k: int|
                0 <= k < word.len() && #[trigger] word[k] == ':')
            ||| (exists|k: int| 0 <= k < word.len() && #[trigger] word[k] == '=') && !(word[0]
                == '/' || word[0] == '~' || word.len() > 1 && word[0] == '.' && word[1] == '/'
                || word.len() > 2 && word[0] == '.' && word[1] == '.' && word[2] == '/')
        },
{
    if word.len() > 0 {
        lemma_begins_one(word, '-');
        lemma_begins_one(word, '/');
        lemma_begins_one(word, '~');
    }
    lemma_infix_of_two(word, '$', '(');
    lemma_infix_of_two(word, '<', '(');
    lemma_infix_of_two(word, '>', '(');
    lemma_infix_of_three(word);
    lemma_begins_dots(word);
}

proof fn lemma_begins_one(s: Seq<char>, c: char)
    requires
        s.len() > 0,
    ensures
        text::begins(s, seq![c]) == (s[0] == c),
{
    if s[0] == c {
        assert(s.take(1) =~= seq![c]);
    } else if text::begins(s, seq![c]) {
        assert(s.take(1)[0] == c);
    }
}

proof fn lemma_begins_dots(s: Seq<char>)
    ensures
        text::begins(s, seq!['.', '/']) == (s.len() > 1 && s[0] == '.' && s[1] == '/'),
        text::begins(s, seq!['.', '.', '/']) == (s.len() > 2 && s[0] == '.' && s[1] == '.' && s[2]
            == '/'),
{
    if text::begins(s, seq!['.', '/']) {
        assert(s.take(2)[0] == '.' && s.take(2)[1] == '/');
    } else if s.len() > 1 && s[0] == '.' && s[1] == '/' {
        assert(s.take(2) =~= seq!['.', '/']);
    }
    if text::begins(s, seq!['.', '.', '/']) {
        assert(s.take(3)[0] == '.' && s.take(3)[1] == '.' && s.take(3)[2] == '/');
    } else if s.len() > 2 && s[0] == '.' && s[1] == '.' && s[2] == '/' {
        assert(s.take(3) =~= seq!['.', '.', '/']);
    }
}

proof fn lemma_infix_of_two(s: Seq<char>, a: char, b: char)
    ensures
        text::has_infix(s, seq![a, b]) == (exists|k: int|
            0 <= k < s.len() - 1 && #[trigger] s[k] == a && s[k + 1] == b),
{
    let needle = seq![a, b];
    if text::has_infix(s, needle) {
        let k = choose|k: int| 0 <= k <= s.len() && text::begins(#[trigger] s.skip(k), needle);
        assert(s.skip(k).take(2)[0] == a && s.skip(k).take(2)[1] == b);
        assert(s[k] == a && s[k + 1] == b);
    }
    if exists|k: int| 0 <= k < s.len() - 1 && #[trigger] s[k] == a && s[k + 1] == b {
        let k = choose|k: int| 0 <= k < s.len() - 1 && #[trigger] s[k] == a && s[k + 1] == b;
        assert(s.skip(k).take(2) =~= needle);
        assert(text::begins(s.skip(k), needle));
    }
}

proof fn lemma_infix_of_three(s: Seq<char>)
    ensures
        text::has_infix(s, seq![':', '/', '/']) == (exists|k: int|
            0 <= k < s.len() - 2 && #[trigger] s[k] == ':' && s[k + 1] == '/' && s[k + 2] == '/'),
{
    let needle = seq![':', '/', '/'];
    if text::has_infix(s, needle) {
        let k = choose|k: int| 0 <= k <= s.len() && text::begins(#[trigger] s.skip(k), needle);
        let head = s.skip(k).take(3);
        assert(head[0] == ':' && head[1] == '/' && head[2] == '/');
        assert(s[k] == ':' && s[k + 1] == '/' && s[k + 2] == '/');
    }
    if exists|k: int|
        0 <= k < s.len() - 2 && #[trigger] s[k] == ':' && s[k + 1] == '/' && s[k + 2] == '/' {
        let k = choose|k: int|
            0 <= k < s.len() - 2 && #[trigger] s[k] == ':' && s[k + 1] == '/' && s[k + 2] == '/';
        assert(s.skip(k).take(3) =~= needle);
        assert(text::begins(s.skip(k), needle));
    }
}

/// A word that is not empty, is no option, and holds no `(`, backquote, `:`, `@` and `=`, is not
/// passed over.
pub proof fn law_ordinary_words_are_not_passed_over(word: Seq<char>)
    requires
        word.len() > 0,
        word[0] != '-',
        forall|k: int|
            0 <= k < word.len() ==> #[trigger] word[k] != '(' && word[k] != '`' && word[k] != ':'
                && word[k] != '@' && word[k] != '=',
    ensures
        !words::is_no_path(word),
{
    law_words_are_passed_over_for_their_characters(word);
}

/// A word names an entry of the directory stack where it is a sign and one or more digits.
pub proof fn law_stack_references_are_signed_digits(word: Seq<char>)
    ensures
        words::is_stack_reference(word) <==> {
            &&& word.len() >= 2
            &&& word[0] == '+' || word[0] == '-'
            &&& forall|k: int| 1 <= k < word.len() ==> '0' <= #[trigger] word[k] && word[k] <= '9'
        },
{
    if word.len() > 1 {
        let digits = word.skip(1);
        if number::all_digits(digits) {
            assert forall|k: int| 1 <= k < word.len() implies '0' <= #[trigger] word[k] && word[k]
                <= '9' by {
                assert(number::is_digit(digits[k - 1]));
            }
        }
        if forall|k: int| 1 <= k < word.len() ==> '0' <= #[trigger] word[k] && word[k] <= '9' {
            assert forall|k: int| 0 <= k < digits.len() implies number::is_digit(
                #[trigger] digits[k],
            ) by {
                assert('0' <= word[k + 1] && word[k + 1] <= '9');
            }
        }
    }
}

/// A sign and one or more digits.
pub open spec fn signed_digits(word: Seq<char>) -> bool {
    &&& word.len() >= 2
    &&& word[0] == '+' || word[0] == '-'
    &&& forall|k: int| 1 <= k < word.len() ==> '0' <= #[trigger] word[k] && word[k] <= '9'
}

/// Whether words are options of a command to change the directory: a `-` and something more, which
/// for `pushd` is not a number.
pub open spec fn are_options(options: Seq<Seq<char>>, pushd: bool) -> bool {
    forall|i: int|
        0 <= i < options.len() ==> {
            &&& (#[trigger] options[i]).len() >= 2
            &&& options[i][0] == '-'
            &&& pushd ==> !signed_digits(options[i])
        }
}

proof fn lemma_options_are_passed_over(words: Seq<Seq<char>>, n: int, pushd: bool)
    requires
        1 <= n <= words.len(),
        are_options(words.subrange(1, n), pushd),
    ensures
        words::target_from(words, 1, pushd) == words::target_from(words, n, pushd),
    decreases n,
{
    if n > 1 {
        let word = words[n - 1];
        let options = words.subrange(1, n);
        assert(options[n - 2] == word);
        assert(are_options(words.subrange(1, n - 1), pushd)) by {
            assert forall|i: int| 0 <= i < n - 2 implies ({
                &&& (#[trigger] words.subrange(1, n - 1)[i]).len() >= 2
                &&& words.subrange(1, n - 1)[i][0] == '-'
                &&& pushd ==> !signed_digits(words.subrange(1, n - 1)[i])
            }) by {
                assert(words.subrange(1, n - 1)[i] == options[i]);
            }
        }
        lemma_options_are_passed_over(words, n - 1, pushd);
        law_stack_references_are_signed_digits(word);
        lemma_begins_one(word, '-');
    }
}

/// The words of a command with options, an argument and others behind it.
pub open spec fn command_words(
    command: Seq<char>,
    options: Seq<Seq<char>>,
    argument: Seq<char>,
    others: Seq<Seq<char>>,
) -> Seq<Seq<char>> {
    seq![command] + options + seq![argument] + others
}

proof fn lemma_target(
    command: Seq<char>,
    options: Seq<Seq<char>>,
    argument: Seq<char>,
    others: Seq<Seq<char>>,
    pushd: bool,
)
    requires
        are_options(options, pushd),
    ensures
        ({
            let all = command_words(command, options, argument, others);
            let n = 1 + options.len() as int;
            &&& all[0] == command
            &&& all.len() > n
            &&& all[n] == argument
            &&& words::target_from(all, 1, pushd) == words::target_from(all, n, pushd)
        }),
{
    let all = command_words(command, options, argument, others);
    let n = 1 + options.len() as int;
    assert(all.subrange(1, n) =~= options);
    lemma_options_are_passed_over(all, n, pushd);
}

/// The command `cd`.
pub open spec fn cd() -> Seq<char> {
    seq!['c', 'd']
}

/// The command `pushd`.
pub open spec fn pushd() -> Seq<char> {
    seq!['p', 'u', 's', 'h', 'd']
}

/// `cd` and `pushd` lead to the directory that their first argument behind the options names: `~`
/// and `~/` begin at home, and so does an empty argument, another `~` is not resolved, nor is a
/// stack reference of `pushd`, and anything else is seen from the directory of the command.
pub proof fn law_commands_lead_to_their_argument(
    cwd: Seq<u8>,
    home: Seq<u8>,
    command: Seq<char>,
    options: Seq<Seq<char>>,
    argument: Seq<char>,
    others: Seq<Seq<char>>,
)
    requires
        command == cd() || command == pushd(),
        are_options(options, command == pushd()),
        argument.len() == 0 || argument[0] != '-',
    ensures
        ({
            let after = words::cwd_after(
                cwd,
                command_words(command, options, argument, others),
                home,
            );
            let bytes = vstd::utf8::encode_utf8(argument);
            if command == pushd() && signed_digits(argument) {
                after == None::<Seq<u8>>
            } else if argument.len() == 0 {
                after == Some(home)
            } else if argument[0] != '~' {
                after == Some(path::joined(cwd, bytes))
            } else if argument.len() == 1 {
                after == Some(home)
            } else if argument[1] == '/' {
                after == Some(path::joined(home, vstd::utf8::encode_utf8(argument.skip(2))))
            } else {
                after == None::<Seq<u8>>
            }
        }),
{
    lemma_target(command, options, argument, others, command == pushd());
    assert(cd().len() == 2 && pushd().len() == 5);
    law_stack_references_are_signed_digits(argument);
    if argument.len() > 0 {
        lemma_begins_one(argument, '-');
        lemma_begins_one(argument, '~');
        lemma_begins_home(argument);
    }
}

proof fn lemma_begins_home(s: Seq<char>)
    ensures
        text::begins(s, seq!['~', '/']) == (s.len() > 1 && s[0] == '~' && s[1] == '/'),
        s == seq!['~'] <==> s.len() == 1 && s[0] == '~',
{
    if text::begins(s, seq!['~', '/']) {
        assert(s.take(2)[0] == '~' && s.take(2)[1] == '/');
    } else if s.len() > 1 && s[0] == '~' && s[1] == '/' {
        assert(s.take(2) =~= seq!['~', '/']);
    }
    if s.len() == 1 && s[0] == '~' {
        assert(s =~= seq!['~']);
    }
}

/// `-`, and for `pushd` a `-` with a number, lead to a directory that is not known.
pub proof fn law_the_last_directory_is_not_known(
    cwd: Seq<u8>,
    home: Seq<u8>,
    command: Seq<char>,
    options: Seq<Seq<char>>,
    argument: Seq<char>,
    others: Seq<Seq<char>>,
)
    requires
        command == cd() || command == pushd(),
        are_options(options, command == pushd()),
        argument == seq!['-'] || (command == pushd() && signed_digits(argument)),
    ensures
        words::cwd_after(cwd, command_words(command, options, argument, others), home) is None,
{
    lemma_target(command, options, argument, others, command == pushd());
    assert(cd().len() == 2 && pushd().len() == 5);
    law_stack_references_are_signed_digits(argument);
}

/// Without an argument `cd` leads home, and `pushd` to a directory that is not known.
pub proof fn law_commands_without_argument(
    cwd: Seq<u8>,
    home: Seq<u8>,
    command: Seq<char>,
    options: Seq<Seq<char>>,
)
    requires
        command == cd() || command == pushd(),
        are_options(options, command == pushd()),
    ensures
        words::cwd_after(cwd, seq![command] + options, home) == (if command == cd() {
            Some(home)
        } else {
            None
        }),
{
    let all = seq![command] + options;
    assert(all.subrange(1, all.len() as int) =~= options);
    lemma_options_are_passed_over(all, all.len() as int, command == pushd());
    assert(cd().len() == 2 && pushd().len() == 5);
}

/// No other command leads to another directory.
pub proof fn law_other_commands_stay(cwd: Seq<u8>, home: Seq<u8>, words: Seq<Seq<char>>)
    requires
        words.len() == 0 || (words[0] != cd() && words[0] != pushd()),
    ensures
        words::cwd_after(cwd, words, home) is None,
{
}

/// `..` leads to the directory above that of the command, and `../x` to `x` in it.
pub proof fn law_dots_lead_up(
    names: Seq<Seq<u8>>,
    home: Seq<u8>,
    command: Seq<char>,
    others: Seq<Seq<char>>,
    name: Seq<char>,
    current_dir: Option<Seq<u8>>,
)
    requires
        command == cd() || command == pushd(),
        path_laws::are_names(names),
        names.len() > 0,
        path_laws::is_name(vstd::utf8::encode_utf8(name)),
    ensures
        ({
            let cwd = seq![47u8] + text::join(names, 47u8);
            let up = words::cwd_after(cwd, seq![command, seq!['.', '.']] + others, home);
            let beside = words::cwd_after(
                cwd,
                seq![command, seq!['.', '.', '/'] + name] + others,
                home,
            );
            &&& up is Some
            &&& path::lexical(up->0, current_dir) == seq![47u8] + text::join(
                names.drop_last(),
                47u8,
            )
            &&& beside is Some
            &&& path::lexical(beside->0, current_dir) == seq![47u8] + text::join(
                names.drop_last().push(vstd::utf8::encode_utf8(name)),
                47u8,
            )
        }),
{
    let cwd = seq![47u8] + text::join(names, 47u8);
    let none = Seq::<Seq<char>>::empty();
    let dots = seq!['.', '.'];
    let more = seq!['.', '.', '/'] + name;
    law_commands_lead_to_their_argument(cwd, home, command, none, dots, others);
    law_commands_lead_to_their_argument(cwd, home, command, none, more, others);
    assert(command_words(command, none, dots, others) =~= seq![command, dots] + others);
    assert(command_words(command, none, more, others) =~= seq![command, more] + others);
    assert(vstd::utf8::is_ascii_chars(dots));
    vstd::utf8::is_ascii_chars_encode_utf8(dots);
    let bytes = vstd::utf8::encode_utf8(dots);
    assert(bytes[0] == dots[0] as u8 && bytes[1] == dots[1] as u8);
    assert(bytes =~= seq![46u8, 46u8]);
    let slash = seq!['/'];
    assert(more =~= dots + (slash + name));
    utf8::law_texts_are_encoded_in_order(dots, slash + name);
    utf8::law_texts_are_encoded_in_order(slash, name);
    utf8::law_slash_is_its_byte(slash);
    let last = vstd::utf8::encode_utf8(name);
    assert(vstd::utf8::encode_utf8(more) =~= bytes.push(47u8) + last);
    assert(text::join(seq![last], 47u8) == last);
    assert(bytes.push(47u8) + last =~= seq![46u8, 46u8, 47u8] + text::join(seq![last], 47u8));
    assert(path_laws::are_names(seq![last]));
    path_laws::law_up_takes_a_name_away(true, names, Seq::empty());
    path_laws::law_up_takes_a_name_away(true, names, seq![last]);
    assert(bytes + Seq::<u8>::empty() =~= bytes);
    assert(names.drop_last() + Seq::<Seq<u8>>::empty() =~= names.drop_last());
    assert(names.drop_last() + seq![last] =~= names.drop_last().push(last));
    path_laws::law_path_of_names_begins_at_the_root(names);
    path_laws::law_path_of_names_begins_at_the_root(names.drop_last());
    path_laws::law_path_of_names_begins_at_the_root(names.drop_last().push(last));
}

} // verus!
