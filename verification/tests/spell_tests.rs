use stract::error_model::{possible_errors, ErrorModel, ErrorSequence, ErrorType};
use stract::spell::{ceil_char_boundary, sentence_ranges, tokenize, Correction, CorrectionTerm};

fn chars(s: &str) -> Vec<char> {
    s.chars().collect()
}

#[test]
fn test_possible_errors() {
    assert_eq!(possible_errors(&chars("hello"), &chars("hello")), None);

    assert_eq!(
        possible_errors(&chars("hello"), &chars("helo")),
        Some(ErrorSequence(vec![ErrorType::Deletion('l' as u32)]))
    );

    assert_eq!(
        possible_errors(&chars("hello"), &chars("hellol")),
        Some(ErrorSequence(vec![ErrorType::Insertion('l' as u32)]))
    );

    assert_eq!(
        possible_errors(&chars("hello"), &chars("heo")),
        Some(ErrorSequence(vec![
            ErrorType::Deletion('l' as u32),
            ErrorType::Deletion('l' as u32)
        ]))
    );

    assert_eq!(
        possible_errors(&chars("hello"), &chars("helli")),
        Some(ErrorSequence(vec![ErrorType::Substitution(
            'o' as u32,
            'i' as u32
        )]))
    );
}

#[test]
fn test_possible_errors_unequal_words_always_edit() {
    assert!(possible_errors(&chars(""), &chars("a")).is_some());
    assert!(possible_errors(&chars("a"), &chars("")).is_some());
    assert!(possible_errors(&chars("ab"), &chars("ba")).is_some());
}

#[test]
fn test_error_model_counts() {
    let mut model = ErrorModel::new();
    model.add(&chars("hello"), &chars("helo"));
    model.add(&chars("hello"), &chars("helo"));
    model.add(&chars("hello"), &chars("hello"));
    assert_eq!(model.total, 2);
    assert_eq!(model.errors.len(), 1);
    assert_eq!(model.errors[0].1, 2);
    model.add(&chars("hello"), &chars("helli"));
    assert_eq!(model.total, 3);
    assert_eq!(model.errors.len(), 2);
}

#[test]
fn test_sentence_ranges() {
    let text = "This is a sentence. This is another sentence. This is a third sentence.";
    let ranges = sentence_ranges(text.as_bytes());
    assert_eq!(ranges.len(), 3);

    assert_eq!(&text[ranges[0].0..ranges[0].1], "This is a sentence.");
    assert_eq!(&text[ranges[1].0..ranges[1].1], "This is another sentence.");
    assert_eq!(&text[ranges[2].0..ranges[2].1], "This is a third sentence.");

    let text = "This is a sentence. This is another sentence. This is a third sentence";
    let ranges = sentence_ranges(text.as_bytes());
    assert_eq!(ranges.len(), 3);

    assert_eq!(&text[ranges[0].0..ranges[0].1], "This is a sentence.");
    assert_eq!(&text[ranges[1].0..ranges[1].1], "This is another sentence.");
    assert_eq!(&text[ranges[2].0..ranges[2].1], "This is a third sentence");

    let text = "mr. roberts";

    let ranges = sentence_ranges(text.as_bytes());

    assert_eq!(ranges.len(), 1);
    assert_eq!(&text[ranges[0].0..ranges[0].1], "mr. roberts");

    let text = "site.com is the best";

    let ranges = sentence_ranges(text.as_bytes());

    assert_eq!(ranges.len(), 1);
    assert_eq!(&text[ranges[0].0..ranges[0].1], "site.com is the best");
}

#[test]
fn test_tokenize_lowercases_and_filters() {
    let tokens = tokenize(b"Hello, World rust_lang a-b");
    // "Hello," and "World" hold a comma and nothing else disqualifying:
    // only the words made of letters, digits, dashes and underscores stay.
    let words: Vec<&[u8]> = tokens.iter().map(|t| t.as_slice()).collect();
    assert_eq!(
        words,
        vec![b"world" as &[u8], b"rust_lang" as &[u8], b"a-b" as &[u8]]
    );
}

#[test]
fn test_ceil_char_boundary_multibyte() {
    let s = "a\u{00e9}b"; // the second character takes two bytes
    let bytes = s.as_bytes();
    assert_eq!(ceil_char_boundary(bytes, 2), 3);
    assert_eq!(ceil_char_boundary(bytes, 1), 1);
    assert_eq!(ceil_char_boundary(bytes, bytes.len()), bytes.len());
}

#[test]
fn test_correction_terms() {
    let mut c = Correction::empty(b"helo wrld".to_vec());
    c.push(CorrectionTerm::NotCorrected(b"helo".to_vec()));
    assert!(c.is_all_orig());
    c.push(CorrectionTerm::Corrected {
        orig: b"wrld".to_vec(),
        correction: b"world".to_vec(),
    });
    assert!(!c.is_all_orig());
    assert_eq!(c.terms.len(), 2);
}
