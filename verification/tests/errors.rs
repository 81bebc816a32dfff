use parser::error::Syntax;
use parser::{Par, ParseError};

fn words(src: &str) -> String {
    Par::parse(src, 16).err().expect("the text does not parse").message()
}

#[test]
fn each_error_describes_itself() {
    assert_eq!(ParseError::SyntaxError(Syntax::UnexpectedBracket).message(), "Unexpected ']'.");
    assert_eq!(ParseError::SyntaxError(Syntax::UnexpectedBrace).message(), "Unexpected '}}'.");
    assert_eq!(ParseError::SyntaxError(Syntax::ExpectedColon).message(), "Expected ':'.");
    assert_eq!(ParseError::KeyTypeError.message(), "Key is not a String");
    assert_eq!(
        ParseError::UnexpectedToken { text: "abc".to_string(), before_brace: false }.message(),
        "Unexpected 'abc'."
    );
    assert_eq!(
        ParseError::UnexpectedToken { text: "abc".to_string(), before_brace: true }.message(),
        "Unexpected 'abc' after '}'."
    );
    assert_eq!(
        ParseError::UnexpectedToken { text: String::new(), before_brace: false }.message(),
        "Unexpected ''."
    );
    assert_eq!(
        ParseError::UnexpectedEndOfInput { after_comma: false }.message(),
        "Reached EOF."
    );
    assert_eq!(
        ParseError::UnexpectedEndOfInput { after_comma: true }.message(),
        "Unexpected end of input after ','."
    );
    assert_eq!(ParseError::CapacityExceeded.message(), "Arena capacity exceeded.");
}

#[test]
fn parsing_reports_its_failures_in_words() {
    assert_eq!(words(""), "Reached EOF.");
    assert_eq!(words("] 1"), "Unexpected ']'.");
    assert_eq!(words("} 1"), "Unexpected '}}'.");
    assert_eq!(words(":"), "Expected ':'.");
    assert_eq!(words("{\"a\" 1}"), "Expected ':'.");
    assert_eq!(words("{1:2}"), "Key is not a String");
    assert_eq!(words(","), "Unexpected end of input after ','.");
    assert_eq!(words("tru"), "Unexpected 'tru'.");
    assert_eq!(words("{\"a\":tru}"), "Unexpected 'tru' after '}'.");
    assert_eq!(words("[1,2,3,4,5,6,7,8,9,10,11,12,13,14,15,16]"), "Arena capacity exceeded.");
}
