//! What colours change of what a run prints: escape sequences, and nothing else.

use vstd::prelude::*;

use crate::colors;
use crate::colors::Indicator;
use crate::colors::Scheme;
use crate::config::Settings;
use crate::display_laws;
use crate::display_laws::Origin;
use crate::files::Entry;
use crate::files::Metadata;
use crate::location;
use crate::location_laws;
use crate::outcome;
use crate::outcome::Shown;
use crate::outcome::World;
use crate::paint;
use crate::paint::Piece;
use crate::path;
use crate::path_laws;
use crate::scheme_laws;
use crate::session;
use crate::session::Answer;
use crate::session_laws;
use crate::style;
use crate::style_laws;
use crate::tail;
use crate::text;
use crate::tokens;
use crate::utf8;
use crate::words;

verus! {

/// The pieces, each in its style, one behind the other.
pub open spec fn styled_pieces(pieces: Seq<Piece>, styles: Seq<Option<Seq<char>>>) -> Seq<char>
    decreases pieces.len(),
{
    if pieces.len() == 0 {
        Seq::empty()
    } else {
        styled_pieces(pieces.drop_last(), styles) + paint::styled(
            pieces.last().text,
            styles[pieces.len() - 1],
        )
    }
}

/// Whether a style is one of a scheme, or that of what does not exist.
pub open spec fn is_style_of(scheme: Scheme, style: Option<Seq<char>>) -> bool {
    match style {
        None => true,
        Some(style) => {
            ||| style == colors::MISSING_COLOR@
            ||| exists|indicator: Indicator|
                scheme.indicators.contains_key(indicator) && #[trigger] scheme.indicators[indicator]
                    == style
            ||| exists|i: int|
                0 <= i < scheme.suffixes.len() && (#[trigger] scheme.suffixes[i]).1 == style
        },
    }
}

/// Whether a line is the pieces of a display in these styles of a scheme with the marker behind
/// them, and the other line is the same pieces without styles, with the same marker.
pub open spec fn is_coloured_in(
    scheme: Scheme,
    coloured: Shown,
    plain: Shown,
    styles: Seq<Option<Seq<char>>>,
    is_dir: bool,
) -> bool {
    let pieces = paint::display_pieces(coloured.display);
    let marker = location::dir_marker(coloured.display, is_dir);
    &&& styles.len() == pieces.len()
    &&& forall|i: int| 0 <= i < styles.len() ==> is_style_of(scheme, #[trigger] styles[i])
    &&& coloured.line == styled_pieces(pieces, styles) + marker
    &&& plain.line == display_laws::text_of(pieces) + marker
    &&& display_laws::text_of(pieces) == coloured.display
}

/// Whether two candidates are shown alike and differ in colours at most.
pub open spec fn differs_in_colours(scheme: Scheme, coloured: Shown, plain: Shown) -> bool {
    &&& coloured.display == plain.display
    &&& exists|styles: Seq<Option<Seq<char>>>, is_dir: bool| #[trigger]
        is_coloured_in(scheme, coloured, plain, styles, is_dir)
}

/// The settings without colours.
pub open spec fn without_colours(settings: Settings) -> Settings {
    Settings { scheme: None, ..settings }
}

/// Whether all paths are valid UTF-8.
pub open spec fn has_text_paths(world: World) -> bool {
    forall|p: Seq<u8>| #[trigger]
        world.entries.contains_key(p) ==> vstd::utf8::valid_utf8(p)
}

/// Whether no path holds the byte that escape sequences begin with.
pub open spec fn has_no_escapes(world: World) -> bool {
    forall|p: Seq<u8>| #[trigger] world.entries.contains_key(p) ==> !p.contains(27u8)
}

/// The styles of the pieces of a display.
spec fn styles_of(
    scheme: Scheme,
    display: Seq<char>,
    p: Seq<u8>,
    style: Option<Seq<char>>,
    known: Seq<Option<Entry>>,
) -> Seq<Option<Seq<char>>> {
    let pieces = paint::display_pieces(display);
    let base = paint::base_path(display, p, pieces);
    Seq::new(
        pieces.len(),
        |i: int|
            if i == pieces.len() - 1 {
                style
            } else {
                paint::known_style(
                    scheme,
                    paint::walked(base, pieces, i + 1),
                    paint::known_at(known, i),
                )
            },
    )
}

proof fn lemma_suffix_style(scheme: Scheme, n: int, name: Seq<char>)
    requires
        0 <= n <= scheme.suffixes.len(),
    ensures
        is_style_of(scheme, colors::suffix_style(scheme.suffixes.take(n), name)),
    decreases n,
{
    let suffixes = scheme.suffixes.take(n);
    if n > 0 {
        assert(suffixes.drop_last() =~= scheme.suffixes.take(n - 1));
        assert(suffixes.last() == scheme.suffixes[n - 1]);
        lemma_suffix_style(scheme, n - 1, name);
    }
}

proof fn lemma_entry_style(
    scheme: Scheme,
    p: Seq<u8>,
    metadata: Option<Metadata>,
    target_exists: Option<bool>,
)
    ensures
        is_style_of(scheme, colors::entry_style(scheme, p, metadata, target_exists)),
{
    let indicator = colors::indicator_of(metadata, target_exists);
    if colors::name_text(p) is Some {
        lemma_suffix_style(
            scheme,
            scheme.suffixes.len() as int,
            colors::name_text(p)->0,
        );
        assert(scheme.suffixes.take(scheme.suffixes.len() as int) =~= scheme.suffixes);
    }
    let all = scheme.indicators;
    if all.contains_key(indicator) {
        assert(is_style_of(scheme, Some(all[indicator])));
    } else if all.contains_key(indicator.fallback_spec()) {
        assert(is_style_of(scheme, Some(all[indicator.fallback_spec()])));
    } else if all.contains_key(Indicator::Normal) {
        assert(is_style_of(scheme, Some(all[Indicator::Normal])));
    }
}

proof fn lemma_ancestors(
    scheme: Scheme,
    display: Seq<char>,
    p: Seq<u8>,
    style: Option<Seq<char>>,
    known: Seq<Option<Entry>>,
    n: int,
)
    requires
        0 <= n < paint::display_pieces(display).len(),
    ensures
        ({
            let pieces = paint::display_pieces(display);
            paint::painted_ancestors(
                scheme,
                paint::base_path(display, p, pieces),
                pieces,
                known,
                n,
            ) == styled_pieces(pieces.take(n), styles_of(scheme, display, p, style, known))
        }),
    decreases n,
{
    let pieces = paint::display_pieces(display);
    if n > 0 {
        lemma_ancestors(scheme, display, p, style, known, n - 1);
        assert(pieces.take(n).drop_last() =~= pieces.take(n - 1));
        assert(pieces.take(n).last() == pieces[n - 1]);
    } else {
        assert(pieces.take(0).len() == 0);
    }
}

/// A coloured display is its pieces, each in a style of the scheme, with the marker of a
/// directory behind them.
pub proof fn law_coloured_display_is_its_pieces(
    scheme: Scheme,
    display: Seq<char>,
    p: Seq<u8>,
    is_dir: bool,
    entry: Entry,
    known: Seq<Option<Entry>>,
) -> (styles: Seq<Option<Seq<char>>>)
    requires
        paint::display_pieces(display).len() > 0,
    ensures
        styles.len() == paint::display_pieces(display).len(),
        forall|i: int| 0 <= i < styles.len() ==> is_style_of(scheme, #[trigger] styles[i]),
        forall|i: int|
            0 <= i < styles.len() - 1 ==> #[trigger] styles[i] == paint::known_style(
                scheme,
                paint::ancestors(display, p)[i],
                paint::known_at(known, i),
            ),
        styles[styles.len() - 1] == colors::entry_style(
            scheme,
            p,
            Some(entry.metadata),
            entry.target_exists_spec(),
        ),
        paint::painted(
            scheme,
            display,
            p,
            is_dir,
            Some(entry.metadata),
            entry.target_exists_spec(),
            known,
        ) == styled_pieces(paint::display_pieces(display), styles) + location::dir_marker(
            display,
            is_dir,
        ),
{
    let pieces = paint::display_pieces(display);
    let style = colors::entry_style(
        scheme,
        p,
        Some(entry.metadata),
        entry.target_exists_spec(),
    );
    let styles = styles_of(scheme, display, p, style, known);
    let n = pieces.len() - 1;
    lemma_ancestors(scheme, display, p, style, known, n);
    assert(pieces.take(n) =~= pieces.drop_last());
    assert(styles[n] == style);
    let base = paint::base_path(display, p, pieces);
    assert forall|i: int| 0 <= i < styles.len() implies is_style_of(
        scheme,
        #[trigger] styles[i],
    ) by {
        if i == n {
            lemma_entry_style(
                scheme,
                p,
                Some(entry.metadata),
                entry.target_exists_spec(),
            );
        } else {
            let at = paint::walked(base, pieces, i + 1);
            match paint::known_at(known, i) {
                Some(e) => lemma_entry_style(
                    scheme,
                    at,
                    Some(e.metadata),
                    e.target_exists_spec(),
                ),
                None => lemma_entry_style(scheme, at, None, None),
            }
        }
    }
    styles
}

proof fn lemma_escape_byte(s: Seq<char>)
    requires
        s.contains('\x1b'),
    ensures
        vstd::utf8::encode_utf8(s).contains(27u8),
{
    let i = s.index_of('\x1b');
    let before = s.take(i);
    let escape = seq!['\x1b'];
    let behind = s.skip(i + 1);
    assert(s =~= before + (escape + behind));
    utf8::law_texts_are_encoded_in_order(before, escape + behind);
    utf8::law_texts_are_encoded_in_order(escape, behind);
    assert(vstd::utf8::is_ascii_chars(escape));
    vstd::utf8::is_ascii_chars_encode_utf8(escape);
    let byte = vstd::utf8::encode_utf8(escape);
    assert(byte[0] == escape[0] as u8);
    let head = vstd::utf8::encode_utf8(before);
    let tail = vstd::utf8::encode_utf8(behind);
    assert((head + (byte + tail))[head.len() as int] == 27u8);
}

proof fn lemma_text_without_escape(bytes: Seq<u8>)
    requires
        vstd::utf8::valid_utf8(bytes),
        !bytes.contains(27u8),
    ensures
        !utf8::shown_text(bytes).contains('\x1b'),
{
    let s = utf8::shown_text(bytes);
    vstd::utf8::decode_utf8_encode_utf8(bytes);
    if s.contains('\x1b') {
        lemma_escape_byte(s);
    }
}

proof fn lemma_rest_without_escape(p: Seq<u8>, base: Seq<u8>)
    requires
        vstd::utf8::valid_utf8(p),
        !p.contains(27u8),
        path::starts_with_path(p, base),
    ensures
        !utf8::shown_text(path::without_prefix(p, base)->0).contains('\x1b'),
{
    let (start, end) = path_laws::law_rest_is_between_separators(p, base);
    let rest = p.subrange(start, end);
    display_laws::law_rest_is_text(p, base);
    if rest.contains(27u8) {
        assert(p[start + rest.index_of(27u8)] == 27u8);
    }
    lemma_text_without_escape(rest);
}

proof fn lemma_display_without_escape(settings: Settings, p: Seq<u8>)
    requires
        vstd::utf8::valid_utf8(p),
        !p.contains(27u8),
    ensures
        !session::display_of(settings, p).contains('\x1b'),
{
    lemma_text_without_escape(p);
    if path::starts_with_path(p, settings.home) {
        lemma_rest_without_escape(p, settings.home);
    }
    if path::starts_with_path(p, settings.pwd) {
        lemma_rest_without_escape(p, settings.pwd);
    }
    let d = session::display_of(settings, p);
    if d.contains('\x1b') {
        let i = d.index_of('\x1b');
        if display_laws::is_shown_from_home(p, settings.home, settings.display_prefix)
            && !path::same_path(p, settings.home) {
            let rest = utf8::shown_text(path::without_prefix(p, settings.home)->0);
            assert(d == seq!['~', '/'] + rest);
            assert(rest[i - 2] == '\x1b');
        }
    }
}

/// What holds between the candidates with colours and those without.
spec fn match_up(settings: Settings, world: World, a: Seq<Shown>, b: Seq<Shown>) -> bool {
    &&& a.len() == b.len()
    &&& forall|i: int| 0 <= i < a.len() ==> (#[trigger] a[i]).display == b[i].display
    &&& has_text_paths(world) && settings.home.len() > 0 ==> forall|i: int|
        0 <= i < a.len() ==> differs_in_colours(settings.scheme->0, #[trigger] a[i], b[i])
    &&& has_text_paths(world) && has_no_escapes(world) ==> forall|i: int|
        0 <= i < a.len() ==> !(#[trigger] a[i]).display.contains('\x1b')
}

proof fn lemma_line(settings: Settings, world: World, p: Seq<u8>, entry: Entry)
    requires
        settings.scheme is Some,
        settings.home.len() > 0,
        vstd::utf8::valid_utf8(p),
        path::normalized(p) == p,
        outcome::is_asked_for(settings, world, p, entry.is_dir_spec()),
    ensures
        ({
            let plain = without_colours(settings);
            let display = session::display_of(settings, p);
            differs_in_colours(
                settings.scheme->0,
                Shown { display, line: outcome::line_for(settings, world, p, entry, display) },
                Shown { display, line: outcome::line_for(plain, world, p, entry, display) },
            )
        }),
{
    let scheme = settings.scheme->0;
    let display = session::display_of(settings, p);
    let prefix = outcome::asked_prefix(settings, world);
    assert(prefix.len() > 0);
    assert(p.len() > 0) by {
        if p.len() == 0 {
            assert(utf8::shown_text(p).len() == 0);
        }
    }
    let (origin, names) = display_laws::law_display_shows_names(
        p,
        settings.home,
        settings.pwd,
        settings.display_prefix,
        session::is_relative_input(settings.dir),
    );
    display_laws::law_pieces_make_up_the_display(origin, names);
    let styles = law_coloured_display_is_its_pieces(
        scheme,
        display,
        p,
        entry.is_dir_spec(),
        entry,
        outcome::entries_at(world, paint::ancestors(display, p)),
    );
    assert(is_coloured_in(
        scheme,
        Shown { display, line: outcome::line_for(settings, world, p, entry, display) },
        Shown {
            display,
            line: outcome::line_for(without_colours(settings), world, p, entry, display),
        },
        styles,
        entry.is_dir_spec(),
    ));
}

proof fn lemma_shown_alike(a: Seq<Shown>, b: Seq<Shown>, display: Seq<char>)
    requires
        a.len() == b.len(),
        forall|i: int| 0 <= i < a.len() ==> (#[trigger] a[i]).display == b[i].display,
    ensures
        outcome::is_shown(a, display) == outcome::is_shown(b, display),
{
    if outcome::is_shown(a, display) {
        let i = choose|i: int| 0 <= i < a.len() && (#[trigger] a[i]).display == display;
        assert(b[i].display == display);
    }
    if outcome::is_shown(b, display) {
        let i = choose|i: int| 0 <= i < b.len() && (#[trigger] b[i]).display == display;
        assert(a[i].display == display);
    }
}

proof fn lemma_one_more(
    settings: Settings,
    world: World,
    a: Seq<Shown>,
    b: Seq<Shown>,
    x: Shown,
    y: Shown,
)
    requires
        match_up(settings, world, a, b),
        x.display == y.display,
        has_text_paths(world) && settings.home.len() > 0 ==> differs_in_colours(
            settings.scheme->0,
            x,
            y,
        ),
        has_text_paths(world) && has_no_escapes(world) ==> !x.display.contains('\x1b'),
    ensures
        match_up(settings, world, a.push(x), b.push(y)),
{
    let c = a.push(x);
    let d = b.push(y);
    assert forall|i: int| 0 <= i < c.len() implies (#[trigger] c[i]).display == d[i].display by {
        if i < a.len() {
            assert(c[i] == a[i] && d[i] == b[i]);
        }
    }
    if has_text_paths(world) && settings.home.len() > 0 {
        assert forall|i: int| 0 <= i < c.len() implies differs_in_colours(
            settings.scheme->0,
            #[trigger] c[i],
            d[i],
        ) by {
            if i < a.len() {
                assert(c[i] == a[i] && d[i] == b[i]);
            }
        }
    }
    if has_text_paths(world) && has_no_escapes(world) {
        assert forall|i: int| 0 <= i < c.len() implies !(#[trigger] c[i]).display.contains(
            '\x1b',
        ) by {
            if i < a.len() {
                assert(c[i] == a[i]);
            }
        }
    }
}

proof fn lemma_with_entry(
    settings: Settings,
    world: World,
    a: Seq<Shown>,
    b: Seq<Shown>,
    p: Seq<u8>,
)
    requires
        settings.scheme is Some,
        match_up(settings, world, a, b),
        path::normalized(p) == p,
        world.entry(p) is Some,
    ensures
        match_up(
            settings,
            world,
            outcome::with_entry(settings, world, a, p, world.entry(p)->0),
            outcome::with_entry(without_colours(settings), world, b, p, world.entry(p)->0),
        ),
{
    let plain = without_colours(settings);
    let entry = world.entry(p)->0;
    let display = session::display_of(settings, p);
    lemma_shown_alike(a, b, display);
    assert(session::display_of(plain, p) == display);
    assert(outcome::asked_prefix(plain, world) == outcome::asked_prefix(settings, world));
    if outcome::is_asked_for(settings, world, p, entry.is_dir_spec()) && !outcome::is_shown(
        a,
        display,
    ) {
        let x = Shown { display, line: outcome::line_for(settings, world, p, entry, display) };
        let y = Shown { display, line: outcome::line_for(plain, world, p, entry, display) };
        assert(world.entries.contains_key(p));
        if has_text_paths(world) && settings.home.len() > 0 {
            lemma_line(settings, world, p, entry);
        }
        if has_text_paths(world) && has_no_escapes(world) {
            lemma_display_without_escape(settings, p);
        }
        lemma_one_more(settings, world, a, b, x, y);
    }
}

proof fn lemma_with_word(
    settings: Settings,
    world: World,
    a: Seq<Shown>,
    b: Seq<Shown>,
    cwd: Seq<u8>,
    post: Option<Seq<u8>>,
    word: Seq<char>,
)
    requires
        settings.scheme is Some,
        match_up(settings, world, a, b),
    ensures
        match_up(
            settings,
            world,
            outcome::with_word(settings, world, a, cwd, post, word),
            outcome::with_word(without_colours(settings), world, b, cwd, post, word),
        ),
{
    let token = location::expanded(word, settings.home);
    if !words::is_no_path(word) && token is Some {
        let dir = settings.current_dir;
        let (p, fallback) = session::places(token->0, cwd, post, dir);
        path_laws::law_lexical_form_is_normal(token->0, dir);
        path_laws::law_lexical_form_is_normal(path::joined(cwd, token->0), dir);
        if post is Some {
            path_laws::law_lexical_form_is_normal(path::joined(post->0, token->0), dir);
        }
        if world.entry(p) is Some {
            lemma_with_entry(settings, world, a, b, p);
        } else if fallback is Some && world.entry(fallback->0) is Some {
            lemma_with_entry(settings, world, a, b, fallback->0);
        }
    }
}

proof fn lemma_with_words(
    settings: Settings,
    world: World,
    a: Seq<Shown>,
    b: Seq<Shown>,
    cwd: Seq<u8>,
    post: Option<Seq<u8>>,
    words: Seq<Seq<char>>,
    i: nat,
)
    requires
        settings.scheme is Some,
        match_up(settings, world, a, b),
    ensures
        match_up(
            settings,
            world,
            outcome::with_words(settings, world, a, cwd, post, words, i),
            outcome::with_words(without_colours(settings), world, b, cwd, post, words, i),
        ),
    decreases words.len() - i,
{
    if i < words.len() && !outcome::is_full(settings, a) {
        let word = words[i as int];
        lemma_with_word(settings, world, a, b, cwd, post, word);
        lemma_with_words(
            settings,
            world,
            outcome::with_word(settings, world, a, cwd, post, word),
            outcome::with_word(without_colours(settings), world, b, cwd, post, word),
            cwd,
            post,
            words,
            i + 1,
        );
    }
}

proof fn lemma_with_lines(
    settings: Settings,
    world: World,
    a: Seq<Shown>,
    b: Seq<Shown>,
    lines: Seq<Seq<u8>>,
)
    requires
        settings.scheme is Some,
        match_up(settings, world, a, b),
    ensures
        match_up(
            settings,
            world,
            outcome::with_lines(settings, world, a, lines),
            outcome::with_lines(without_colours(settings), world, b, lines),
        ),
    decreases lines.len(),
{
    if lines.len() > 0 && !outcome::is_full(settings, a) {
        let plain = without_colours(settings);
        if let Some((raw, command)) = tail::log_fields(tail::line_text(lines[0])) {
            let cwd = outcome::directory(settings, world, vstd::utf8::encode_utf8(raw));
            let words = tokens::words(command);
            let post = outcome::left_in(settings, world, cwd, words);
            assert(outcome::directory(plain, world, vstd::utf8::encode_utf8(raw)) == cwd);
            assert(outcome::left_in(plain, world, cwd, words) == post);
            lemma_with_words(settings, world, a, b, cwd, post, words, 0);
        }
        lemma_with_lines(
            settings,
            world,
            outcome::with_line(settings, world, a, lines[0]),
            outcome::with_line(plain, world, b, lines[0]),
            lines.skip(1),
        );
    }
}

proof fn lemma_candidates_match_up(settings: Settings, world: World)
    requires
        settings.scheme is Some,
    ensures
        match_up(
            settings,
            world,
            outcome::candidates(settings, world),
            outcome::candidates(without_colours(settings), world),
        ),
{
    lemma_with_lines(
        settings,
        world,
        Seq::empty(),
        Seq::empty(),
        tail::file_lines(world.log, settings.lines_limit),
    );
}

/// Colours change neither which candidates there are, nor their order, nor how they are shown.
pub proof fn law_colours_change_no_candidate(settings: Settings, world: World)
    requires
        settings.scheme is Some,
    ensures
        ({
            let coloured = outcome::candidates(settings, world);
            let plain = outcome::candidates(without_colours(settings), world);
            &&& coloured.len() == plain.len()
            &&& forall|i: int|
                0 <= i < coloured.len() ==> (#[trigger] coloured[i]).display == plain[i].display
        }),
{
    lemma_candidates_match_up(settings, world);
}

/// Where all paths are valid UTF-8 and there is a home directory, a coloured line is the pieces of
/// the display, each in a style of the scheme, and the line without colours is the same pieces
/// without styles; the same marker stands behind both.
pub proof fn law_colours_change_styles_only(settings: Settings, world: World)
    requires
        settings.scheme is Some,
        settings.home.len() > 0,
        has_text_paths(world),
    ensures
        ({
            let coloured = outcome::candidates(settings, world);
            let plain = outcome::candidates(without_colours(settings), world);
            &&& coloured.len() == plain.len()
            &&& forall|i: int|
                0 <= i < coloured.len() ==> differs_in_colours(
                    settings.scheme->0,
                    #[trigger] coloured[i],
                    plain[i],
                )
        }),
{
    lemma_candidates_match_up(settings, world);
}

/// A text without its escape sequences, inside of one or not: a sequence begins with an escape
/// character and `[`, and ends with the next `m`.
pub open spec fn erased_from(s: Seq<char>, inside: bool) -> Seq<char>
    decreases s.len(),
{
    if s.len() == 0 {
        Seq::empty()
    } else if inside {
        erased_from(s.skip(1), s[0] != 'm')
    } else if s.len() > 1 && s[0] == '\x1b' && s[1] == '[' {
        erased_from(s.skip(2), true)
    } else {
        seq![s[0]] + erased_from(s.skip(1), false)
    }
}

/// A text without its escape sequences.
pub open spec fn erased(s: Seq<char>) -> Seq<char> {
    erased_from(s, false)
}

/// The lines of candidates, as they are printed.
pub open spec fn output_of(shown: Seq<Shown>) -> Seq<char>
    decreases shown.len(),
{
    if shown.len() == 0 {
        Seq::empty()
    } else {
        shown[0].line.push('\n') + output_of(shown.skip(1))
    }
}

/// Whether no style of a scheme holds the character that ends an escape sequence.
pub open spec fn has_plain_styles(scheme: Scheme) -> bool {
    &&& forall|indicator: Indicator|
        scheme.indicators.contains_key(indicator) ==> !(
        #[trigger] scheme.indicators[indicator]).contains('m')
    &&& forall|i: int|
        0 <= i < scheme.suffixes.len() ==> !(#[trigger] scheme.suffixes[i]).1.contains('m')
}

proof fn lemma_erase_style(style: Seq<char>, rest: Seq<char>)
    requires
        !style.contains('m'),
    ensures
        erased_from(style + (seq!['m'] + rest), true) == erased(rest),
    decreases style.len(),
{
    let all = style + (seq!['m'] + rest);
    if style.len() == 0 {
        assert(all =~= seq!['m'] + rest);
        assert(all.skip(1) =~= rest);
    } else {
        assert(style.contains(style[0]));
        let others = style.skip(1);
        if others.contains('m') {
            assert(style[others.index_of('m') + 1] == 'm');
        }
        assert(all.skip(1) =~= others + (seq!['m'] + rest));
        lemma_erase_style(others, rest);
    }
}

proof fn lemma_keep_text(s: Seq<char>, rest: Seq<char>)
    requires
        !s.contains('\x1b'),
    ensures
        erased(s + rest) == s + erased(rest),
    decreases s.len(),
{
    let all = s + rest;
    if s.len() == 0 {
        assert(all =~= rest);
        assert(s + erased(rest) =~= erased(rest));
    } else {
        assert(s.contains(s[0]));
        let others = s.skip(1);
        if others.contains('\x1b') {
            assert(s[others.index_of('\x1b') + 1] == '\x1b');
        }
        assert(all.skip(1) =~= others + rest);
        lemma_keep_text(others, rest);
        assert(seq![s[0]] + (others + erased(rest)) =~= s + erased(rest));
    }
}

proof fn lemma_erase_sequence(style: Seq<char>, rest: Seq<char>)
    requires
        !style.contains('m'),
    ensures
        erased(seq!['\x1b', '['] + (style + (seq!['m'] + rest))) == erased(rest),
{
    let behind = style + (seq!['m'] + rest);
    let all = seq!['\x1b', '['] + behind;
    assert(all[0] == '\x1b' && all[1] == '[');
    assert(all.skip(2) =~= behind);
    lemma_erase_style(style, rest);
}

proof fn lemma_erase_styled(s: Seq<char>, style: Option<Seq<char>>, rest: Seq<char>)
    requires
        !s.contains('\x1b'),
        style is Some ==> !style->0.contains('m'),
    ensures
        erased(paint::styled(s, style) + rest) == s + erased(rest),
{
    lemma_keep_text(s, rest);
    if let Some(code) = style {
        let zero = seq!['0'];
        let closed = seq!['\x1b', '['] + (zero + (seq!['m'] + rest));
        assert(!zero.contains('m'));
        lemma_erase_sequence(zero, rest);
        lemma_keep_text(s, closed);
        lemma_erase_sequence(code, s + closed);
        assert(paint::styled(s, style) + rest =~= seq!['\x1b', '['] + (code + (seq!['m'] + (s
            + closed))));
    }
}

proof fn lemma_plain_style(scheme: Scheme, style: Option<Seq<char>>)
    requires
        has_plain_styles(scheme),
        is_style_of(scheme, style),
    ensures
        style is Some ==> !style->0.contains('m'),
{
    reveal_strlit("38;2;255;165;0");
}

proof fn lemma_erase_pieces(
    scheme: Scheme,
    pieces: Seq<Piece>,
    styles: Seq<Option<Seq<char>>>,
    rest: Seq<char>,
)
    requires
        has_plain_styles(scheme),
        pieces.len() <= styles.len(),
        forall|i: int| 0 <= i < styles.len() ==> is_style_of(scheme, #[trigger] styles[i]),
        !display_laws::text_of(pieces).contains('\x1b'),
    ensures
        erased(styled_pieces(pieces, styles) + rest) == display_laws::text_of(pieces) + erased(
            rest,
        ),
    decreases pieces.len(),
{
    if pieces.len() == 0 {
        assert(styled_pieces(pieces, styles) + rest =~= rest);
        assert(display_laws::text_of(pieces) + erased(rest) =~= erased(rest));
    } else {
        let n = pieces.len() - 1;
        let before = pieces.drop_last();
        let head = display_laws::text_of(before);
        let last = pieces.last().text;
        let style = styles[n];
        let all = display_laws::text_of(pieces);
        assert(all == head + last);
        if head.contains('\x1b') {
            assert(all[head.index_of('\x1b')] == '\x1b');
        }
        if last.contains('\x1b') {
            assert(all[head.len() + last.index_of('\x1b')] == '\x1b');
        }
        lemma_plain_style(scheme, style);
        lemma_erase_styled(last, style, rest);
        lemma_erase_pieces(scheme, before, styles, paint::styled(last, style) + rest);
        assert(styled_pieces(pieces, styles) + rest =~= styled_pieces(before, styles) + (
        paint::styled(last, style) + rest));
        assert(head + (last + erased(rest)) =~= all + erased(rest));
    }
}

proof fn lemma_erase_line(scheme: Scheme, coloured: Shown, plain: Shown, rest: Seq<char>)
    requires
        has_plain_styles(scheme),
        differs_in_colours(scheme, coloured, plain),
        !coloured.display.contains('\x1b'),
    ensures
        erased(coloured.line.push('\n') + rest) == plain.line.push('\n') + erased(rest),
{
    let (styles, is_dir) = choose|styles: Seq<Option<Seq<char>>>, is_dir: bool| #[trigger]
        is_coloured_in(scheme, coloured, plain, styles, is_dir);
    let pieces = paint::display_pieces(coloured.display);
    let marker = location::dir_marker(coloured.display, is_dir);
    let end = marker.push('\n');
    assert(!end.contains('\x1b'));
    lemma_keep_text(end, rest);
    lemma_erase_pieces(scheme, pieces, styles, end + rest);
    assert(coloured.line.push('\n') + rest =~= styled_pieces(pieces, styles) + (end + rest));
    assert(plain.line.push('\n') + erased(rest) =~= display_laws::text_of(pieces) + (end + erased(
        rest,
    )));
}

proof fn lemma_erase_output(scheme: Scheme, a: Seq<Shown>, b: Seq<Shown>)
    requires
        has_plain_styles(scheme),
        a.len() == b.len(),
        forall|i: int| 0 <= i < a.len() ==> differs_in_colours(scheme, #[trigger] a[i], b[i]),
        forall|i: int| 0 <= i < a.len() ==> !(#[trigger] a[i]).display.contains('\x1b'),
    ensures
        erased(output_of(a)) == output_of(b),
    decreases a.len(),
{
    if a.len() > 0 {
        let c = a.skip(1);
        let d = b.skip(1);
        assert forall|i: int| 0 <= i < c.len() implies differs_in_colours(
            scheme,
            #[trigger] c[i],
            d[i],
        ) && !c[i].display.contains('\x1b') by {
            assert(c[i] == a[i + 1] && d[i] == b[i + 1]);
        }
        lemma_erase_output(scheme, c, d);
        assert(differs_in_colours(scheme, a[0], b[0]));
        lemma_erase_line(scheme, a[0], b[0], output_of(c));
    }
}

/// Taking the escape sequences out of what is printed in colours gives what is printed without:
/// where all paths are valid UTF-8 without escape characters, there is a home directory, and no
/// style holds the character that ends an escape sequence.
pub proof fn law_erasing_colours_gives_the_plain_output(settings: Settings, world: World)
    requires
        settings.scheme is Some,
        has_plain_styles(settings.scheme->0),
        settings.home.len() > 0,
        has_text_paths(world),
        has_no_escapes(world),
    ensures
        erased(output_of(outcome::candidates(settings, world))) == output_of(
            outcome::candidates(without_colours(settings), world),
        ),
{
    lemma_candidates_match_up(settings, world);
    lemma_erase_output(
        settings.scheme->0,
        outcome::candidates(settings, world),
        outcome::candidates(without_colours(settings), world),
    );
}

/// Two runs that are answered by one world, one in colours and one without, print the same but for
/// escape sequences.
pub proof fn law_coloured_run_prints_what_the_plain_run_prints(
    settings: Settings,
    world: World,
    coloured: Seq<Answer>,
    plain: Seq<Answer>,
)
    requires
        settings.scheme is Some,
        has_plain_styles(settings.scheme->0),
        settings.home.len() > 0,
        has_text_paths(world),
        has_no_escapes(world),
        forall|i: int|
            0 <= i < coloured.len() ==> outcome::is_told_by(
                world,
                session_laws::run(session::initial(settings), coloured.take(i)),
                #[trigger] coloured[i],
            ),
        session_laws::run(session::initial(settings), coloured).phase is Done,
        forall|i: int|
            0 <= i < plain.len() ==> outcome::is_told_by(
                world,
                session_laws::run(session::initial(without_colours(settings)), plain.take(i)),
                #[trigger] plain[i],
            ),
        session_laws::run(session::initial(without_colours(settings)), plain).phase is Done,
    ensures
        erased(output_of(outcome::shown_after(session::initial(settings), coloured)))
            == output_of(
            outcome::shown_after(session::initial(without_colours(settings)), plain),
        ),
{
    outcome::law_a_run_prints_the_candidates(world, settings, coloured);
    outcome::law_a_run_prints_the_candidates(world, without_colours(settings), plain);
    law_erasing_colours_gives_the_plain_output(settings, world);
}

proof fn lemma_plain_entry(scheme: Scheme, entry: Seq<char>)
    requires
        has_plain_styles(scheme),
        !entry.contains('m'),
    ensures
        has_plain_styles(colors::with_entry(scheme, entry)),
{
    if let Some((key, value)) = text::split_first(entry, '=') {
        let next = colors::with_entry(scheme, entry);
        text::lemma_sides_are_parts(entry, '=', 'm');
        style_laws::law_normal_style_adds_digits_only(value, 'm');
        if text::begins(key, seq!['*']) {
            if colors::clears(value) {
                assert forall|i: int| 0 <= i < next.suffixes.len() implies !(
                #[trigger] next.suffixes[i]).1.contains('m') by {
                    let known = next.suffixes[i];
                    assert(next.suffixes.contains(known));
                    colors::law_cleared_suffix_is_gone(scheme.suffixes, key.skip(1), known);
                    let j = scheme.suffixes.index_of(known);
                    assert(!scheme.suffixes[j].1.contains('m'));
                }
            } else {
                let style = style::normalized_style(value);
                assert forall|i: int| 0 <= i < next.suffixes.len() implies !(
                #[trigger] next.suffixes[i]).1.contains('m') by {
                    if i < scheme.suffixes.len() {
                        assert(next.suffixes[i] == scheme.suffixes[i]);
                    } else {
                        assert(next.suffixes[i].1 == style);
                    }
                }
            }
        } else if let Some(changed) = colors::key_indicator(key) {
            assert forall|indicator: Indicator|
                next.indicators.contains_key(indicator) implies !(
            #[trigger] next.indicators[indicator]).contains('m') by {
                if indicator != changed {
                    assert(next.indicators[indicator] == scheme.indicators[indicator]);
                }
            }
        }
    }
}

proof fn lemma_plain_entries(scheme: Scheme, entries: Seq<Seq<char>>)
    requires
        has_plain_styles(scheme),
        forall|i: int| 0 <= i < entries.len() ==> !(#[trigger] entries[i]).contains('m'),
    ensures
        has_plain_styles(colors::with_entries(scheme, entries)),
    decreases entries.len(),
{
    if entries.len() > 0 {
        lemma_plain_entries(scheme, entries.drop_last());
        assert(!entries[entries.len() - 1].contains('m'));
        lemma_plain_entry(colors::with_entries(scheme, entries.drop_last()), entries.last());
    }
}

/// A value of the variable without the character that ends an escape sequence adds no style that
/// holds it.
pub proof fn law_plain_values_give_plain_styles(scheme: Scheme, value: Seq<char>)
    requires
        has_plain_styles(scheme),
        !value.contains('m'),
    ensures
        has_plain_styles(colors::with_variable(scheme, value)),
{
    let entries = text::split(value, ':');
    assert forall|i: int| 0 <= i < entries.len() implies !(#[trigger] entries[i]).contains(
        'm',
    ) by {
        text::law_joined_pieces_are_a_part(value, ':', i, i);
        let c = text::cuts(value, ':')[i];
        if entries[i].contains('m') {
            assert(value[c.0 + entries[i].index_of('m')] == 'm');
        }
    }
    lemma_plain_entries(scheme, entries);
}

/// No style of the default scheme, nor of one with such a value of the variable added, holds the
/// character that ends an escape sequence.
pub proof fn law_schemes_have_plain_styles(value: Option<Seq<char>>)
    requires
        value is Some ==> !value->0.contains('m'),
    ensures
        has_plain_styles(colors::scheme_for(value)),
{
    let none = colors::no_styles();
    let first = "rs=0:lc=\x1b["@;
    let ending = "rc=m"@;
    let others =
        "cl=\x1b[K:ex=01;32:sg=30;43:su=37;41:di=01;34:st=37;44:ow=34;42:tw=30;42:ln=01;36:bd=01;33:cd=01;33:do=01;35:pi=33:so=01;35:"@;
    let all = colors::LS_COLORS_DEFAULT@;
    reveal_strlit("rs=0:lc=\x1b[");
    reveal_strlit("rc=m");
    reveal_strlit(
        "cl=\x1b[K:ex=01;32:sg=30;43:su=37;41:di=01;34:st=37;44:ow=34;42:tw=30;42:ln=01;36:bd=01;33:cd=01;33:do=01;35:pi=33:so=01;35:",
    );
    reveal_strlit(
        "rs=0:lc=\x1b[:rc=m:cl=\x1b[K:ex=01;32:sg=30;43:su=37;41:di=01;34:st=37;44:ow=34;42:tw=30;42:ln=01;36:bd=01;33:cd=01;33:do=01;35:pi=33:so=01;35:",
    );
    assert(all =~= first.push(':') + (ending.push(':') + others));
    assert(!first.contains('m'));
    assert(!others.contains('m'));
    colors::law_values_add_up(none, first, ending.push(':') + others);
    let begun = colors::with_variable(none, first);
    colors::law_values_add_up(begun, ending, others);
    law_plain_values_give_plain_styles(none, first);
    assert(colors::with_variable(begun, ending) == begun) by {
        let key = seq!['r', 'c'];
        assert(!ending.contains(':'));
        text::law_split_of_whole(ending, ':');
        assert(ending =~= key.push('=') + seq!['m']);
        assert(!key.contains('='));
        text::law_sides_are_read_back(key, '=', seq!['m']);
        if text::begins(key, seq!['*']) {
            assert(key.take(1)[0] == '*');
        }
        assert(seq![ending].last() == ending);
        assert(colors::with_entries(begun, seq![ending].drop_last()) == begun);
    }
    law_plain_values_give_plain_styles(begun, others);
    if let Some(value) = value {
        law_plain_values_give_plain_styles(colors::with_variable(none, all), value);
    }
}

/// A text in a style stands between the escape sequence of the style and that which ends it;
/// without a style it stands as it is.
pub proof fn law_styles_surround_a_text(s: Seq<char>, style: Seq<char>)
    ensures
        ({
            let after = paint::styled(s, Some(style));
            let n = style.len() as int;
            &&& after.len() == style.len() + s.len() + 7
            &&& after[0] == '\x1b' && after[1] == '['
            &&& after.subrange(2, 2 + n) == style
            &&& after[2 + n] == 'm'
            &&& after.subrange(3 + n, 3 + n + s.len()) == s
            &&& after[after.len() - 4] == '\x1b' && after[after.len() - 3] == '['
            &&& after[after.len() - 2] == '0' && after[after.len() - 1] == 'm'
        }),
        paint::styled(s, None) == s,
{
    let after = paint::styled(s, Some(style));
    let n = style.len() as int;
    assert(after.subrange(2, 2 + n) =~= style);
    assert(after.subrange(3 + n, 3 + n + s.len()) =~= s);
}

/// Where nothing is at a path, its display is coloured as a whole, in the style of what is missing.
pub proof fn law_missing_paths_are_coloured_as_a_whole(
    scheme: Scheme,
    display: Seq<char>,
    p: Seq<u8>,
    is_dir: bool,
    known: Seq<Option<Entry>>,
)
    ensures
        paint::painted_entry(scheme, display, p, is_dir, None, known) == paint::styled(
            display,
            Some(seq!['3', '8', ';', '2', ';', '2', '5', '5', ';', '1', '6', '5', ';', '0']),
        ) + location::dir_marker(display, is_dir),
{
    scheme_laws::law_other_entries_are_styled_by_kind(scheme, p, None, None);
}

/// Each component of a coloured candidate has the colour of what is in the world at the path that
/// it leads to, or of what is missing; the last one has that of the entry itself, and the marker
/// of a directory has none.
pub proof fn law_components_have_the_colour_of_what_is_there(
    settings: Settings,
    world: World,
    scheme: Scheme,
    origin: Origin,
    root: bool,
    dirs: Seq<Seq<u8>>,
    names: Seq<Seq<char>>,
    entry: Entry,
) -> (styles: Seq<Option<Seq<char>>>)
    requires
        settings.scheme == Some(scheme),
        display_laws::can_be_displayed(origin, names),
        path_laws::are_names(dirs),
        origin is Root ==> root && dirs.len() == 0,
    ensures
        ({
            let p = path::path_of_names(root, dirs + display_laws::encoded(names));
            let display = display_laws::display_of_names(origin, names);
            let pieces = paint::display_pieces(display);
            let marker = if entry.is_dir_spec() && display[display.len() - 1] != '/' {
                seq!['/']
            } else {
                Seq::empty()
            };
            &&& styles.len() == names.len() + if origin is Here {
                0int
            } else {
                1
            }
            &&& forall|i: int| #![trigger styles[i]]
                0 <= i < styles.len() - 1 ==> {
                    let shown = if origin is Here {
                        i + 1
                    } else {
                        i
                    };
                    let at = path::path_of_names(
                        root,
                        dirs + display_laws::encoded(names).take(shown),
                    );
                    &&& world.entries.contains_key(at) ==> styles[i] == colors::entry_style(
                        scheme,
                        at,
                        Some(world.entries[at].metadata),
                        world.entries[at].target_exists_spec(),
                    )
                    &&& !world.entries.contains_key(at) ==> styles[i] == Some(
                        colors::MISSING_COLOR@,
                    )
                }
            &&& styles[styles.len() - 1] == colors::entry_style(
                scheme,
                p,
                Some(entry.metadata),
                entry.target_exists_spec(),
            )
            &&& outcome::line_for(settings, world, p, entry, display) == styled_pieces(
                pieces,
                styles,
            ) + marker
        }),
{
    let p = path::path_of_names(root, dirs + display_laws::encoded(names));
    let display = display_laws::display_of_names(origin, names);
    let pieces = paint::display_pieces(display);
    let paths = paint::ancestors(display, p);
    let known = outcome::entries_at(world, paths);
    display_laws::law_components_are_names(origin, names);
    display_laws::law_pieces_make_up_the_display(origin, names);
    location_laws::law_marks_of_directories(display);
    assert(display.len() > 0) by {
        if origin is Here {
            path_laws::law_components_of_names(names);
            if display.len() == 0 {
                assert(display =~= Seq::<char>::empty());
                path_laws::law_components_of_one_piece(display);
                assert(path_laws::as_components(names).len() == 0);
            }
        }
    }
    let styles = law_coloured_display_is_its_pieces(
        scheme,
        display,
        p,
        entry.is_dir_spec(),
        entry,
        known,
    );
    assert forall|i: int| #![trigger styles[i]] 0 <= i < styles.len() - 1 implies {
        let shown = if origin is Here {
            i + 1
        } else {
            i
        };
        let at = path::path_of_names(root, dirs + display_laws::encoded(names).take(shown));
        &&& world.entries.contains_key(at) ==> styles[i] == colors::entry_style(
            scheme,
            at,
            Some(world.entries[at].metadata),
            world.entries[at].target_exists_spec(),
        )
        &&& !world.entries.contains_key(at) ==> styles[i] == Some(colors::MISSING_COLOR@)
    } by {
        display_laws::law_components_lead_to_the_path(origin, root, dirs, names, i);
        assert(known[i] == world.entry(paths[i]));
    }
    styles
}

/// A display without components is coloured as a whole, in the style of the entry.
pub proof fn law_an_empty_display_is_coloured_as_a_whole(
    scheme: Scheme,
    p: Seq<u8>,
    is_dir: bool,
    entry: Entry,
    known: Seq<Option<Entry>>,
)
    ensures
        paint::painted_entry(scheme, Seq::empty(), p, is_dir, Some(entry), known) == paint::styled(
            Seq::empty(),
            colors::entry_style(scheme, p, Some(entry.metadata), entry.target_exists_spec()),
        ) + location::dir_marker(Seq::empty(), is_dir),
{
    let none = Seq::<char>::empty();
    path_laws::law_components_of_one_piece(none);
    assert(paint::display_pieces(none) =~= Seq::empty());
}

} // verus!
