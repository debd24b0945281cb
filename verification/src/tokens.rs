//! The words of a command line.

use vstd::prelude::*;

use crate::text;

verus! {

/// Whether the scanner is inside quotes.
#[derive(Clone, Copy, Debug, PartialEq, Eq, Structural)]
pub enum Quote {
    /// Outside of quotes.
    Plain,
    /// Between `'` and `'`.
    Single,
    /// Between `"` and `"`.
    Double,
}

/// Whether a character outside of quotes ends a word.
pub open spec fn is_separator(c: char) -> bool {
    c == ' ' || c == '\t' || c == '\n' || c == '\r' || c == ';' || c == '|' || c == '&'
}

/// A word as a list, where it is not empty.
pub open spec fn word_if_any(word: Seq<char>) -> Seq<Seq<char>> {
    if word.len() == 0 {
        Seq::empty()
    } else {
        seq![word]
    }
}

/// The words that follow in `rest`, where `current` has been read of the word at hand.
/// Quotes and backslashes take away the meaning of what they stand around or before, and are
/// no part of a word; inside single quotes a backslash is an ordinary character.
pub open spec fn words_from(rest: Seq<char>, current: Seq<char>, quote: Quote) -> Seq<Seq<char>>
    decreases rest.len(),
{
    if rest.len() == 0 {
        word_if_any(current)
    } else {
        let c = rest[0];
        let after = rest.skip(1);
        match quote {
            Quote::Single => if c == '\'' {
                words_from(after, current, Quote::Plain)
            } else {
                words_from(after, current.push(c), quote)
            },
            Quote::Double => if c == '"' {
                words_from(after, current, Quote::Plain)
            } else if c == '\\' {
                if after.len() > 0 {
                    words_from(after.skip(1), current.push(after[0]), quote)
                } else {
                    words_from(after, current, quote)
                }
            } else {
                words_from(after, current.push(c), quote)
            },
            Quote::Plain => if c == '\'' {
                words_from(after, current, Quote::Single)
            } else if c == '"' {
                words_from(after, current, Quote::Double)
            } else if c == '\\' {
                if after.len() > 0 {
                    words_from(after.skip(1), current.push(after[0]), quote)
                } else {
                    words_from(after, current, quote)
                }
            } else if is_separator(c) {
                word_if_any(current) + words_from(after, Seq::empty(), quote)
            } else {
                words_from(after, current.push(c), quote)
            },
        }
    }
}

/// The words of a command line.
pub open spec fn words(command: Seq<char>) -> Seq<Seq<char>> {
    words_from(command, Seq::empty(), Quote::Plain)
}

/// Reads a command line word by word.
pub struct TokenScanner {
    chars: Vec<char>,
    position: usize,
    current: Vec<char>,
    quote: Quote,
    finished: bool,
}

impl TokenScanner {
    /// Whether the scanner stands in its command line.
    pub closed spec fn wf(self) -> bool {
        self.position <= self.chars@.len()
    }

    /// The words still to come.
    pub closed spec fn pending(self) -> Seq<Seq<char>> {
        if self.finished {
            Seq::empty()
        } else {
            words_from(self.chars@.skip(self.position as int), self.current@, self.quote)
        }
    }

    /// A scanner at the beginning of a command line.
    pub fn new(command: &str) -> (scanner: TokenScanner)
        ensures
            scanner.wf(),
            scanner.pending() == words(command@),
    {
        let scanner = TokenScanner {
            chars: text::chars_of(command),
            position: 0,
            current: Vec::new(),
            quote: Quote::Plain,
            finished: false,
        };
        assert(scanner.chars@.skip(0) =~= command@);
        assert(scanner.current@ =~= Seq::<char>::empty());
        scanner
    }

    /// The next word, if there is one.
    pub fn next(&mut self) -> (r: Option<String>)
        requires
            old(self).wf(),
        ensures
            final(self).wf(),
            match r {
                Some(word) => old(self).pending() == seq![word@] + final(self).pending(),
                None => old(self).pending().len() == 0 && final(self).pending().len() == 0,
            },
    {
        if self.finished {
            return None;
        }
        while self.position < self.chars.len()
            invariant
                old(self).wf(),
                self.wf(),
                !self.finished,
                self.pending() == old(self).pending(),
            decreases self.chars@.len() - self.position,
        {
            let c = self.chars[self.position];
            let ghost rest = self.chars@.skip(self.position as int);
            let ghost before = self.current@;
            assert(rest[0] == c);
            assert(rest.skip(1) =~= self.chars@.skip(self.position as int + 1));
            self.position += 1;
            let escaped = self.position < self.chars.len();
            if escaped {
                assert(rest.skip(1)[0] == self.chars@[self.position as int]);
                assert(rest.skip(1).skip(1) =~= self.chars@.skip(self.position as int + 1));
            }
            match self.quote {
                Quote::Single => {
                    if c == '\'' {
                        self.quote = Quote::Plain;
                    } else {
                        self.current.push(c);
                    }
                },
                Quote::Double => {
                    if c == '"' {
                        self.quote = Quote::Plain;
                    } else if c == '\\' {
                        if escaped {
                            self.current.push(self.chars[self.position]);
                            self.position += 1;
                        }
                    } else {
                        self.current.push(c);
                    }
                },
                Quote::Plain => {
                    if c == '\'' {
                        self.quote = Quote::Single;
                    } else if c == '"' {
                        self.quote = Quote::Double;
                    } else if c == '\\' {
                        if escaped {
                            self.current.push(self.chars[self.position]);
                            self.position += 1;
                        }
                    } else if c == ' ' || c == '\t' || c == '\n' || c == '\r' || c == ';' || c
                        == '|' || c == '&' {
                        if self.current.len() > 0 {
                            let word = text::string_of(self.current.as_slice());
                            self.current = Vec::new();
                            assert(self.current@ =~= Seq::<char>::empty());
                            return Some(word);
                        }
                        assert(word_if_any(before) + words_from(
                            rest.skip(1),
                            Seq::empty(),
                            Quote::Plain,
                        ) =~= words_from(rest.skip(1), Seq::empty(), Quote::Plain));
                        assert(self.current@ =~= Seq::<char>::empty());
                    } else {
                        self.current.push(c);
                    }
                },
            }
        }
        self.finished = true;
        assert(self.chars@.skip(self.position as int).len() == 0);
        if self.current.len() > 0 {
            let word = text::string_of(self.current.as_slice());
            assert(seq![word@] + self.pending() =~= seq![word@]);
            Some(word)
        } else {
            None
        }
    }
}

/// The words of a command line.
pub fn scan_tokens(command: &str) -> (out: Vec<String>)
    ensures
        text::texts(out@) == words(command@),
{
    let mut scanner = TokenScanner::new(command);
    let mut out: Vec<String> = Vec::new();
    let mut more = true;
    assert(text::texts(out@) + scanner.pending() =~= words(command@));
    while more
        invariant
            scanner.wf(),
            text::texts(out@) + scanner.pending() == words(command@),
            !more ==> scanner.pending().len() == 0,
        decreases scanner.pending().len() + if more { 1nat } else { 0 },
    {
        let ghost before = out@;
        let ghost pending = scanner.pending();
        match scanner.next() {
            Some(word) => {
                out.push(word);
                assert(text::texts(out@) =~= text::texts(before).push(word@));
                assert(text::texts(before) + (seq![word@] + scanner.pending()) =~= text::texts(out@)
                    + scanner.pending());
            },
            None => {
                more = false;
                assert(pending =~= scanner.pending());
            },
        }
    }
    assert(text::texts(out@) =~= words(command@));
    out
}

/// No word is empty.
pub proof fn law_no_word_is_empty(rest: Seq<char>, current: Seq<char>, quote: Quote, i: int)
    requires
        0 <= i < words_from(rest, current, quote).len(),
    ensures
        words_from(rest, current, quote)[i].len() > 0,
    decreases rest.len(),
{
    if rest.len() > 0 {
        let c = rest[0];
        let after = rest.skip(1);
        let escapes = c == '\\' && !(quote is Single) && after.len() > 0;
        if quote is Plain && is_separator(c) {
            let n = word_if_any(current).len();
            if i >= n {
                law_no_word_is_empty(after, Seq::empty(), quote, i - n);
            }
        } else if escapes {
            law_no_word_is_empty(after.skip(1), current.push(after[0]), quote, i);
        } else {
            let all = words_from(rest, current, quote);
            if all == words_from(after, current, Quote::Plain) {
                law_no_word_is_empty(after, current, Quote::Plain, i);
            } else if all == words_from(after, current, Quote::Single) {
                law_no_word_is_empty(after, current, Quote::Single, i);
            } else if all == words_from(after, current, Quote::Double) {
                law_no_word_is_empty(after, current, Quote::Double, i);
            } else {
                law_no_word_is_empty(after, current.push(c), quote, i);
            }
        }
    }
}

/// How a text is written so that it is taken as it is.
pub enum Quoting {
    /// A backslash before each character.
    Backslashes,
    /// Between `'` and `'`.
    Single,
    /// Between `"` and `"`.
    Double,
}

/// A text with a backslash before each character.
pub open spec fn with_backslashes(s: Seq<char>) -> Seq<char>
    decreases s.len(),
{
    if s.len() == 0 {
        Seq::empty()
    } else {
        seq!['\\', s[0]] + with_backslashes(s.skip(1))
    }
}

/// A text as it is written in a way of quoting.
pub open spec fn quoted(s: Seq<char>, quoting: Quoting) -> Seq<char> {
    match quoting {
        Quoting::Backslashes => with_backslashes(s),
        Quoting::Single => seq!['\''] + s + seq!['\''],
        Quoting::Double => seq!['"'] + s + seq!['"'],
    }
}

/// Whether a text can be written in a way of quoting.
pub open spec fn can_be_quoted(s: Seq<char>, quoting: Quoting) -> bool {
    match quoting {
        Quoting::Backslashes => true,
        Quoting::Single => !s.contains('\''),
        Quoting::Double => !s.contains('"') && !s.contains('\\'),
    }
}

proof fn lemma_backslashes(s: Seq<char>, rest: Seq<char>, current: Seq<char>)
    ensures
        words_from(with_backslashes(s) + rest, current, Quote::Plain) == words_from(
            rest,
            current + s,
            Quote::Plain,
        ),
    decreases s.len(),
{
    let all = with_backslashes(s) + rest;
    if s.len() == 0 {
        assert(all =~= rest);
        assert(current + s =~= current);
    } else {
        assert(all[0] == '\\');
        assert(all.skip(1)[0] == s[0]);
        assert(all.skip(1).skip(1) =~= with_backslashes(s.skip(1)) + rest);
        lemma_backslashes(s.skip(1), rest, current.push(s[0]));
        assert(current.push(s[0]) + s.skip(1) =~= current + s);
    }
}

/// Text between quotes is taken as it is.
pub proof fn lemma_between_quotes(s: Seq<char>, rest: Seq<char>, current: Seq<char>, quote: Quote)
    requires
        quote is Single && !s.contains('\'') || quote is Double && !s.contains('"') && !s.contains(
            '\\',
        ),
    ensures
        words_from(s + rest, current, quote) == words_from(rest, current + s, quote),
    decreases s.len(),
{
    let all = s + rest;
    if s.len() == 0 {
        assert(all =~= rest);
        assert(current + s =~= current);
    } else {
        assert(s.contains(s[0]));
        assert(all.skip(1) =~= s.skip(1) + rest);
        assert forall|c: char| s.skip(1).contains(c) implies s.contains(c) by {
            let i = s.skip(1).index_of(c);
            assert(s[i + 1] == c);
        }
        lemma_between_quotes(s.skip(1), rest, current.push(s[0]), quote);
        assert(current.push(s[0]) + s.skip(1) =~= current + s);
    }
}

/// A quoted text is taken into the word as it is, whatever stands before and behind it.
pub proof fn law_quoted_text_is_taken_as_it_is(
    s: Seq<char>,
    quoting: Quoting,
    rest: Seq<char>,
    current: Seq<char>,
)
    requires
        can_be_quoted(s, quoting),
    ensures
        words_from(quoted(s, quoting) + rest, current, Quote::Plain) == words_from(
            rest,
            current + s,
            Quote::Plain,
        ),
{
    match quoting {
        Quoting::Backslashes => {
            lemma_backslashes(s, rest, current);
        },
        Quoting::Single => {
            let all = quoted(s, quoting) + rest;
            let closed = seq!['\''] + rest;
            assert(all.skip(1) =~= s + closed);
            lemma_between_quotes(s, closed, current, Quote::Single);
            assert(closed.skip(1) =~= rest);
        },
        Quoting::Double => {
            let all = quoted(s, quoting) + rest;
            let closed = seq!['"'] + rest;
            assert(all.skip(1) =~= s + closed);
            lemma_between_quotes(s, closed, current, Quote::Double);
            assert(closed.skip(1) =~= rest);
        },
    }
}

/// A command line of words, each written in its way, with a separator behind each.
pub open spec fn command_of(list: Seq<(Seq<char>, Quoting)>, separator: char) -> Seq<char>
    decreases list.len(),
{
    if list.len() == 0 {
        Seq::empty()
    } else {
        quoted(list[0].0, list[0].1) + (seq![separator] + command_of(list.skip(1), separator))
    }
}

/// Scanning a command line of quoted words gives the words back.
pub proof fn law_quoted_words_are_read_back(list: Seq<(Seq<char>, Quoting)>, separator: char)
    requires
        is_separator(separator),
        forall|i: int|
            0 <= i < list.len() ==> (#[trigger] list[i]).0.len() > 0 && can_be_quoted(
                list[i].0,
                list[i].1,
            ),
    ensures
        words(command_of(list, separator)) == list.map_values(
            |w: (Seq<char>, Quoting)| w.0,
        ),
    decreases list.len(),
{
    let texts = list.map_values(|w: (Seq<char>, Quoting)| w.0);
    if list.len() == 0 {
        assert(words(command_of(list, separator)) =~= texts);
    } else {
        let (word, quoting) = list[0];
        let others = list.skip(1);
        let rest = seq![separator] + command_of(others, separator);
        law_quoted_text_is_taken_as_it_is(word, quoting, rest, Seq::empty());
        assert(Seq::empty() + word =~= word);
        assert(rest.skip(1) =~= command_of(others, separator));
        law_quoted_words_are_read_back(others, separator);
        assert(seq![word] + others.map_values(|w: (Seq<char>, Quoting)| w.0) =~= texts);
    }
}

} // verus!
