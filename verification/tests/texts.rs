use historypwd::text::begins_with;
use historypwd::text::chars_of;
use historypwd::text::contains_symbol;
use historypwd::text::contains_text;
use historypwd::text::join_all;
use historypwd::text::same_str;
use historypwd::text::same_text;
use historypwd::text::split_all;
use historypwd::text::split_once;
use historypwd::text::string_of;

const SAMPLES: [&str; 10] = ["", ";", ";;", "a", "a;", ";a", "a;b", "a;;b", "\u{e9};\u{4e16};", "ab;cd;ef"];

#[test]
fn pieces_are_split_as_std_splits_them() {
    for sample in SAMPLES {
        let pieces = split_all(&chars_of(sample), ';');
        let expected: Vec<&str> = sample.split(';').collect();
        assert_eq!(pieces, expected, "{sample:?}");
        assert_eq!(join_all(&pieces, ';'), sample);
        let chars = chars_of(sample);
        let sides = split_once(&chars, ';').map(|(a, b)| (string_of(a), string_of(b)));
        let expected = sample.split_once(';').map(|(a, b)| (a.to_string(), b.to_string()));
        assert_eq!(sides, expected, "{sample:?}");
    }
}

#[test]
fn joined_pieces_are_split_again() {
    for pieces in [vec!["a"], vec!["", ""], vec!["a", "", "b"], vec!["x", "y z"]] {
        let pieces: Vec<String> = pieces.iter().map(|piece| piece.to_string()).collect();
        let joined = join_all(&pieces, ',');
        assert_eq!(joined, pieces.join(","));
        assert_eq!(split_all(&chars_of(&joined), ','), pieces);
    }
    assert_eq!(join_all(&[], ','), "");
}

#[test]
fn texts_are_compared_and_searched_as_std_does() {
    for sample in SAMPLES {
        assert_eq!(string_of(&chars_of(sample)), sample);
        for other in SAMPLES {
            let (a, b) = (chars_of(sample), chars_of(other));
            assert_eq!(same_str(sample, other), sample == other);
            assert_eq!(same_text(sample.as_bytes(), other.as_bytes()), sample == other);
            assert_eq!(begins_with(&a, &b), sample.starts_with(other), "{sample:?} {other:?}");
            assert_eq!(contains_text(&a, &b), sample.contains(other), "{sample:?} {other:?}");
        }
        assert_eq!(contains_symbol(&chars_of(sample), 'b'), sample.contains('b'));
    }
}
