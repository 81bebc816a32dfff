use std::collections::BTreeMap;

use parser::error::Syntax;
use parser::{Allocator, Id, JsonValue, Number, Par, ParseError};

/// A parsed value with its parts in place of their handles.
#[derive(Debug, Clone, PartialEq)]
enum Tree {
    Null,
    Bool(bool),
    Num(f64),
    Str(String),
    List(Vec<Tree>),
    Object(BTreeMap<String, Tree>),
}

fn num(n: f64) -> Tree {
    Tree::Num(n)
}

fn text(s: &str) -> Tree {
    Tree::Str(s.to_string())
}

fn list(items: Vec<Tree>) -> Tree {
    Tree::List(items)
}

fn object(entries: Vec<(&str, Tree)>) -> Tree {
    Tree::Object(entries.into_iter().map(|(k, v)| (k.to_string(), v)).collect())
}

fn as_f64(number: &Number) -> f64 {
    match number {
        Number::Integer(n) => *n as f64,
        Number::Decimal(text) => text.parse::<f64>().unwrap(),
    }
}

fn tree(value: &JsonValue, arena: &Allocator<JsonValue>) -> Tree {
    match value {
        JsonValue::Null => Tree::Null,
        JsonValue::Bool(b) => Tree::Bool(*b),
        JsonValue::Number(n) => Tree::Num(as_f64(n)),
        JsonValue::String(s) => Tree::Str(s.clone()),
        JsonValue::List(handles) => {
            Tree::List(handles.iter().map(|h| tree(arena.fetch(*h), arena)).collect())
        }
        JsonValue::Object(entries) => {
            let mut map = BTreeMap::new();
            for i in 0..entries.len() {
                let (key, handle) = entries.entry(i);
                let by_key = entries.get(key).expect("a key of the object is found");
                let part = tree(arena.fetch(handle), arena);
                assert_eq!(part, tree(arena.fetch(by_key), arena));
                assert!(map.insert(key.clone(), part).is_none());
            }
            Tree::Object(map)
        }
    }
}

fn trees(src: &str, mem: usize) -> Result<Vec<Tree>, ParseError> {
    let results = Par::parse(src, mem)?;
    Ok(results.iter().map(|(value, arena)| tree(value, arena)).collect())
}

fn single(src: &str) -> Tree {
    let mut all = trees(src, 64).expect("the text parses");
    assert_eq!(all.len(), 1);
    all.pop().unwrap()
}

fn error(src: &str) -> ParseError {
    Par::parse(src, 64).err().expect("the text does not parse")
}

fn slots(arena: &Allocator<JsonValue>) -> usize {
    let mut probe = arena.clone();
    let mut free = 0;
    while probe.allocate(JsonValue::Null).is_ok() {
        free += 1;
    }
    free
}

#[test]
fn parses_true_false_null() {
    let (value, _) = Par::parse("true", 16).unwrap().pop().unwrap();
    assert!(matches!(value, JsonValue::Bool(true)));
    let (value, _) = Par::parse("false", 16).unwrap().pop().unwrap();
    assert!(matches!(value, JsonValue::Bool(false)));
    let (value, _) = Par::parse("null", 16).unwrap().pop().unwrap();
    assert!(matches!(value, JsonValue::Null));
}

#[test]
fn parses_numbers() {
    assert_eq!(single("42"), num(42.0));
    assert_eq!(single("3.14"), num(3.14));
    let (value, _) = Par::parse("42", 16).unwrap().pop().unwrap();
    assert!(matches!(value, JsonValue::Number(Number::Integer(42))));
    let (value, _) = Par::parse("3.14", 16).unwrap().pop().unwrap();
    assert!(matches!(value, JsonValue::Number(Number::Decimal(s)) if s == "3.14"));
}

#[test]
fn parses_a_string() {
    let (value, _) = Par::parse("\"hi\"", 16).unwrap().pop().unwrap();
    assert!(matches!(value, JsonValue::String(s) if s == "hi"));
}

#[test]
fn parses_a_list_of_three() {
    let (value, arena) = Par::parse("[1,2,3]", 16).unwrap().pop().unwrap();
    let handles: Vec<Id<JsonValue>> = match value {
        JsonValue::List(handles) => handles,
        other => panic!("not a list: {:?}", other),
    };
    assert_eq!(handles.len(), 3);
    let expected = [1.0, 2.0, 3.0];
    for (handle, n) in handles.iter().zip(expected) {
        match arena.fetch(*handle) {
            JsonValue::Number(number) => assert_eq!(as_f64(number), n),
            other => panic!("not a number: {:?}", other),
        }
    }
}

#[test]
fn parses_an_object_of_two_entries() {
    let (value, arena) = Par::parse("{\"a\":1,\"b\":2}", 16).unwrap().pop().unwrap();
    let entries = match value {
        JsonValue::Object(entries) => entries,
        other => panic!("not an object: {:?}", other),
    };
    assert_eq!(entries.len(), 2);
    let a = entries.get("a").unwrap();
    let b = entries.get("b").unwrap();
    assert!(matches!(arena.fetch(a), JsonValue::Number(Number::Integer(1))));
    assert!(matches!(arena.fetch(b), JsonValue::Number(Number::Integer(2))));
    assert!(entries.get("c").is_none());
}

#[test]
fn the_empty_text_is_an_unexpected_end_of_input() {
    assert_eq!(error(""), ParseError::UnexpectedEndOfInput { after_comma: false });
    assert_eq!(error(" \n\t "), ParseError::UnexpectedEndOfInput { after_comma: false });
}

#[test]
fn an_entry_without_a_value_fails() {
    assert_eq!(error("{\"a\":}"), ParseError::KeyTypeError);
}

#[test]
fn entries_without_a_separator_fail() {
    assert_eq!(error("{\"a\":1 2}"), ParseError::KeyTypeError);
    assert_eq!(error("{\"a\":1 \"b\" 2}"), ParseError::SyntaxError(Syntax::ExpectedColon));
}

#[test]
fn parses_nestings_up_to_depth_five() {
    assert_eq!(single("[]"), list(vec![]));
    assert_eq!(single("{}"), object(vec![]));
    assert_eq!(single("[[]]"), list(vec![list(vec![])]));
    assert_eq!(single("[{}]"), list(vec![object(vec![])]));
    assert_eq!(single("{\"a\":[]}"), object(vec![("a", list(vec![]))]));
    assert_eq!(
        single("[[[[[1]]]]]"),
        list(vec![list(vec![list(vec![list(vec![list(vec![num(1.0)])])])])])
    );
    assert_eq!(
        single("{\"a\":{\"b\":{\"c\":{\"d\":{\"e\":null}}}}}"),
        object(vec![(
            "a",
            object(vec![(
                "b",
                object(vec![("c", object(vec![("d", object(vec![("e", Tree::Null)]))]))])
            )])
        )])
    );
    assert_eq!(
        single(
            "{\"name\": \"x\", \"tags\": [\"a\", \"b\"], \"pos\": {\"x\": 1.5, \"y\": [2, [3, {\"z\": true}]]}, \"none\": null}"
        ),
        object(vec![
            ("name", text("x")),
            ("tags", list(vec![text("a"), text("b")])),
            (
                "pos",
                object(vec![
                    ("x", num(1.5)),
                    (
                        "y",
                        list(vec![
                            num(2.0),
                            list(vec![num(3.0), object(vec![("z", Tree::Bool(true))])])
                        ])
                    ),
                ])
            ),
            ("none", Tree::Null),
        ])
    );
}

#[test]
fn sibling_composites_do_not_share_their_parts() {
    assert_eq!(
        single("[[1,2],[3],[],[4,5,6]]"),
        list(vec![
            list(vec![num(1.0), num(2.0)]),
            list(vec![num(3.0)]),
            list(vec![]),
            list(vec![num(4.0), num(5.0), num(6.0)]),
        ])
    );
    assert_eq!(
        single("[1,[2,3],4]"),
        list(vec![num(1.0), list(vec![num(2.0), num(3.0)]), num(4.0)])
    );
    assert_eq!(
        single("{\"a\":{\"x\":1},\"b\":{\"y\":2},\"c\":3}"),
        object(vec![
            ("a", object(vec![("x", num(1.0))])),
            ("b", object(vec![("y", num(2.0))])),
            ("c", num(3.0)),
        ])
    );
}

#[test]
fn parts_are_stored_behind_their_own_parts_in_the_order_of_the_text() {
    let (value, arena) = Par::parse("[[1,2],3]", 16).unwrap().pop().unwrap();
    assert!(matches!(arena.fetch(Id::id(0)), JsonValue::Number(Number::Integer(1))));
    assert!(matches!(arena.fetch(Id::id(1)), JsonValue::Number(Number::Integer(2))));
    assert!(matches!(arena.fetch(Id::id(2)), JsonValue::List(l) if l.len() == 2));
    assert!(matches!(arena.fetch(Id::id(3)), JsonValue::Number(Number::Integer(3))));
    assert_eq!(slots(&arena), 15 - 4);
    assert_eq!(tree(&value, &arena), list(vec![list(vec![num(1.0), num(2.0)]), num(3.0)]));
}

#[test]
fn a_scalar_takes_no_slot() {
    let (_, arena) = Par::parse("\"text\"", 16).unwrap().pop().unwrap();
    assert_eq!(slots(&arena), 15);
}

#[test]
fn whitespace_between_tokens_changes_nothing() {
    assert_eq!(
        single(" {\n\t\"a\" :\r[ 1 , 2 ]\n}\n"),
        object(vec![("a", list(vec![num(1.0), num(2.0)]))])
    );
}

#[test]
fn a_later_entry_replaces_an_earlier_one_with_the_same_key() {
    let (value, arena) = Par::parse("{\"a\":1,\"b\":2,\"a\":3}", 16).unwrap().pop().unwrap();
    assert_eq!(tree(&value, &arena), object(vec![("a", num(3.0)), ("b", num(2.0))]));
    assert_eq!(slots(&arena), 15 - 3);
    match value {
        JsonValue::Object(entries) => assert_eq!(entries.len(), 2),
        other => panic!("not an object: {:?}", other),
    }
}

#[test]
fn a_comma_may_stand_before_the_first_part_and_be_left_out_between_parts() {
    assert_eq!(single("[,1]"), list(vec![num(1.0)]));
    assert_eq!(single("[1 2 3]"), list(vec![num(1.0), num(2.0), num(3.0)]));
    assert_eq!(single("{,\"a\":1}"), object(vec![("a", num(1.0))]));
    assert_eq!(
        single("{\"a\":1 \"b\":2}"),
        object(vec![("a", num(1.0)), ("b", num(2.0))])
    );
}

#[test]
fn a_comma_in_a_composite_is_passed_over_wherever_it_stands() {
    assert_eq!(single("[1,]"), list(vec![num(1.0)]));
    assert_eq!(single("[,,1]"), list(vec![num(1.0)]));
    assert_eq!(single("[1,,2,3]"), list(vec![num(1.0), num(2.0), num(3.0)]));
    assert_eq!(single("[,,]"), list(vec![]));
    assert_eq!(single("[,]"), list(vec![]));
    assert_eq!(single("{\"a\":1,}"), object(vec![("a", num(1.0))]));
    assert_eq!(single("{,}"), object(vec![]));
    assert_eq!(
        single("{,,\"a\":1,,\"b\":[,2,,],}"),
        object(vec![("a", num(1.0)), ("b", list(vec![num(2.0)]))])
    );
}

#[test]
fn a_comma_where_a_value_should_start_is_a_null_that_takes_the_token_behind_it() {
    assert_eq!(single(",1"), Tree::Null);
    assert_eq!(trees(",1 2", 16).unwrap(), vec![Tree::Null, num(2.0)]);
    assert_eq!(trees("1,,2 3", 16).unwrap(), vec![num(1.0), Tree::Null, num(3.0)]);
    assert_eq!(single("{\"a\":,1}"), object(vec![("a", Tree::Null)]));
    assert_eq!(single("{\"a\":,\"b\" \"c\":2}"), object(vec![("a", Tree::Null), ("c", num(2.0))]));
}

#[test]
fn a_comma_where_a_value_should_start_fails_before_the_end_or_a_close() {
    assert_eq!(error(","), ParseError::UnexpectedEndOfInput { after_comma: true });
    assert_eq!(error(",]"), ParseError::UnexpectedEndOfInput { after_comma: true });
    assert_eq!(error(",}"), ParseError::UnexpectedEndOfInput { after_comma: true });
    assert_eq!(error("{\"a\":,}"), ParseError::UnexpectedEndOfInput { after_comma: true });
    assert_eq!(error("1,,"), ParseError::UnexpectedEndOfInput { after_comma: true });
}

#[test]
fn the_input_may_not_end_behind_a_comma_between_documents() {
    assert_eq!(error("1,"), ParseError::UnexpectedEndOfInput { after_comma: false });
    assert_eq!(error("[1],"), ParseError::UnexpectedEndOfInput { after_comma: false });
}

#[test]
fn a_closing_bracket_before_a_closing_token_is_an_empty_list() {
    assert_eq!(single("]"), list(vec![]));
    assert_eq!(trees("],1", 16).unwrap(), vec![list(vec![]), num(1.0)]);
    assert_eq!(trees("]]1", 16).unwrap(), vec![list(vec![]), num(1.0)]);
    assert_eq!(trees("]}1", 16).unwrap(), vec![list(vec![]), num(1.0)]);
    assert_eq!(trees("]:1", 16).unwrap(), vec![list(vec![]), num(1.0)]);
    assert_eq!(trees("]{1", 16).unwrap(), vec![list(vec![]), num(1.0)]);
    assert_eq!(single("{\"a\":],}"), object(vec![("a", list(vec![]))]));
}

#[test]
fn a_closing_bracket_before_anything_else_fails() {
    assert_eq!(error("] 1"), ParseError::SyntaxError(Syntax::UnexpectedBracket));
    assert_eq!(error("] ["), ParseError::SyntaxError(Syntax::UnexpectedBracket));
    assert_eq!(error("] \"a\""), ParseError::SyntaxError(Syntax::UnexpectedBracket));
    assert_eq!(error("] true"), ParseError::SyntaxError(Syntax::UnexpectedBracket));
    assert_eq!(error("] x"), ParseError::SyntaxError(Syntax::UnexpectedBracket));
}

#[test]
fn a_closing_brace_before_a_closing_token_is_an_empty_object() {
    assert_eq!(single("}"), object(vec![]));
    assert_eq!(trees("},1", 16).unwrap(), vec![object(vec![]), num(1.0)]);
    assert_eq!(trees("}]1", 16).unwrap(), vec![object(vec![]), num(1.0)]);
    assert_eq!(trees("}}1", 16).unwrap(), vec![object(vec![]), num(1.0)]);
    assert_eq!(single("[},]"), list(vec![object(vec![])]));
}

#[test]
fn a_closing_brace_before_anything_else_fails() {
    assert_eq!(error("} 1"), ParseError::SyntaxError(Syntax::UnexpectedBrace));
    assert_eq!(error("} :"), ParseError::SyntaxError(Syntax::UnexpectedBrace));
    assert_eq!(error("} {"), ParseError::SyntaxError(Syntax::UnexpectedBrace));
    assert_eq!(error("} ["), ParseError::SyntaxError(Syntax::UnexpectedBrace));
    assert_eq!(error("} null"), ParseError::SyntaxError(Syntax::UnexpectedBrace));
}

#[test]
fn two_colons_are_a_null_that_takes_the_token_behind_it() {
    assert_eq!(single("::"), Tree::Null);
    assert_eq!(single("::1"), Tree::Null);
    assert_eq!(trees("::1 2", 16).unwrap(), vec![Tree::Null, num(2.0)]);
    assert_eq!(single("[::]]"), list(vec![Tree::Null]));
}

#[test]
fn one_colon_fails() {
    assert_eq!(error(":"), ParseError::SyntaxError(Syntax::ExpectedColon));
    assert_eq!(error(":1"), ParseError::SyntaxError(Syntax::ExpectedColon));
    assert_eq!(error("[:]"), ParseError::SyntaxError(Syntax::ExpectedColon));
}

#[test]
fn a_key_must_be_a_string() {
    assert_eq!(error("{1:2}"), ParseError::KeyTypeError);
    assert_eq!(error("{true:2}"), ParseError::KeyTypeError);
    assert_eq!(error("{[]:2}"), ParseError::KeyTypeError);
    assert_eq!(error("{a:2}"), ParseError::KeyTypeError);
    assert_eq!(error("{"), ParseError::KeyTypeError);
    assert_eq!(error("{:1}"), ParseError::KeyTypeError);
}

#[test]
fn a_key_must_be_followed_by_a_colon() {
    assert_eq!(error("{\"a\" 1}"), ParseError::SyntaxError(Syntax::ExpectedColon));
    assert_eq!(error("{\"a\"}"), ParseError::SyntaxError(Syntax::ExpectedColon));
    assert_eq!(error("{\"a\",\"b\"}"), ParseError::SyntaxError(Syntax::ExpectedColon));
    assert_eq!(error("{\"a\""), ParseError::SyntaxError(Syntax::ExpectedColon));
}

#[test]
fn an_unknown_word_where_a_value_should_start_fails_with_its_text() {
    assert_eq!(
        error("foo"),
        ParseError::UnexpectedToken { text: "foo".to_string(), before_brace: false }
    );
    assert_eq!(
        error("[1, nope]"),
        ParseError::UnexpectedToken { text: "nope".to_string(), before_brace: false }
    );
    assert_eq!(
        error("{\"a\": True}"),
        ParseError::UnexpectedToken { text: "True".to_string(), before_brace: true }
    );
    assert_eq!(
        error("foo}"),
        ParseError::UnexpectedToken { text: "foo".to_string(), before_brace: true }
    );
    assert_eq!(
        error("9223372036854775808"),
        ParseError::UnexpectedToken {
            text: "9223372036854775808".to_string(),
            before_brace: false
        }
    );
}

#[test]
fn a_character_that_starts_no_token_fails_with_an_empty_text() {
    for src in ["@", "-1", "[1, -2]", "1 @", "::@", "::@1", "[1.2.3]"] {
        assert_eq!(
            error(src),
            ParseError::UnexpectedToken { text: String::new(), before_brace: false },
            "at {}",
            src
        );
    }
}

#[test]
fn an_unclosed_composite_fails_at_the_end_of_the_input() {
    assert_eq!(error("["), ParseError::UnexpectedEndOfInput { after_comma: false });
    assert_eq!(error("[1"), ParseError::UnexpectedEndOfInput { after_comma: false });
    assert_eq!(error("[1,2"), ParseError::UnexpectedEndOfInput { after_comma: false });
    assert_eq!(error("{\"a\":"), ParseError::UnexpectedEndOfInput { after_comma: false });
    assert_eq!(error("[1,"), ParseError::UnexpectedEndOfInput { after_comma: false });
    assert_eq!(error("{\"a\":1"), ParseError::KeyTypeError);
    assert_eq!(error("{\"a\":1,"), ParseError::KeyTypeError);
    assert_eq!(error("[[1]"), ParseError::UnexpectedEndOfInput { after_comma: false });
}

#[test]
fn a_string_is_taken_without_escapes() {
    assert_eq!(single("\"a\\nb\""), text("a\\nb"));
    assert_eq!(
        error("\"a\\\"b\""),
        ParseError::UnexpectedToken { text: "b".to_string(), before_brace: false }
    );
    assert_eq!(single("\"open"), text("open"));
}

#[test]
fn documents_follow_each_other_with_or_without_a_comma() {
    assert_eq!(trees("1,2", 16).unwrap(), vec![num(1.0), num(2.0)]);
    assert_eq!(trees("1 2", 16).unwrap(), vec![num(1.0), num(2.0)]);
    assert_eq!(
        trees("[1],{\"a\":2},\"s\",null", 16).unwrap(),
        vec![list(vec![num(1.0)]), object(vec![("a", num(2.0))]), text("s"), Tree::Null]
    );
    assert_eq!(trees("[1][2]", 16).unwrap(), vec![list(vec![num(1.0)]), list(vec![num(2.0)])]);
}

#[test]
fn an_error_in_a_later_document_fails_the_whole_text() {
    assert_eq!(
        Par::parse("[1],[2,", 16).err(),
        Some(ParseError::UnexpectedEndOfInput { after_comma: false })
    );
    assert_eq!(
        Par::parse("1,2,x", 16).err(),
        Some(ParseError::UnexpectedToken { text: "x".to_string(), before_brace: false })
    );
}

#[test]
fn each_document_has_an_arena_of_its_own() {
    let results = Par::parse("[1,2],[3],4", 3).unwrap();
    assert_eq!(results.len(), 3);
    let free: Vec<usize> = results.iter().map(|(_, arena)| slots(arena)).collect();
    assert_eq!(free, vec![0, 1, 2]);
    let all: Vec<Tree> = results.iter().map(|(value, arena)| tree(value, arena)).collect();
    assert_eq!(
        all,
        vec![list(vec![num(1.0), num(2.0)]), list(vec![num(3.0)]), num(4.0)]
    );
    let (second, arena) = &results[1];
    match second {
        JsonValue::List(handles) => {
            assert!(matches!(arena.fetch(handles[0]), JsonValue::Number(Number::Integer(3))));
            assert!(matches!(arena.fetch(Id::id(0)), JsonValue::Number(Number::Integer(3))));
        }
        other => panic!("not a list: {:?}", other),
    }
}

#[test]
fn one_part_more_than_the_arena_takes_exceeds_the_capacity() {
    assert_eq!(trees("[1,2]", 3).unwrap(), vec![list(vec![num(1.0), num(2.0)])]);
    assert_eq!(Par::parse("[1,2,3]", 3).err(), Some(ParseError::CapacityExceeded));
    assert!(Par::parse("[1,2,3]", 4).is_ok());
    assert_eq!(Par::parse("[[1]]", 2).err(), Some(ParseError::CapacityExceeded));
    assert!(Par::parse("[[1]]", 3).is_ok());
    assert_eq!(Par::parse("{\"a\":1,\"a\":2}", 2).err(), Some(ParseError::CapacityExceeded));
    assert!(Par::parse("{\"a\":1,\"a\":2}", 3).is_ok());
}

#[test]
fn a_capacity_of_one_leaves_room_for_scalars_and_empty_composites_only() {
    assert_eq!(trees("1", 1).unwrap(), vec![num(1.0)]);
    assert_eq!(trees("[] {} \"s\"", 1).unwrap(), vec![list(vec![]), object(vec![]), text("s")]);
    assert_eq!(Par::parse("[1]", 1).err(), Some(ParseError::CapacityExceeded));
    assert_eq!(Par::parse("{\"a\":1}", 1).err(), Some(ParseError::CapacityExceeded));
}

#[test]
fn the_first_failure_in_the_text_is_the_one_reported() {
    assert_eq!(Par::parse("[1,2,3,x]", 3).err(), Some(ParseError::CapacityExceeded));
    assert_eq!(
        Par::parse("[1,x,3,4]", 3).err(),
        Some(ParseError::UnexpectedToken { text: "x".to_string(), before_brace: false })
    );
    assert_eq!(Par::parse("[1,2,[x]]", 3).err().map(|e| e.message()), Some("Unexpected 'x'.".to_string()));
}

#[test]
fn parsing_the_same_text_twice_gives_the_same_trees() {
    for src in [
        "[1,2,3]",
        "{\"a\":1,\"b\":[true,false,null],\"a\":{\"c\":\"d\"}}",
        "1, 2.5, \"three\", [4], {\"five\": 5}",
        "[,,1] ] , :: }",
    ] {
        let once = Par::parse(src, 32).unwrap();
        let twice = Par::parse(src, 32).unwrap();
        assert_eq!(once.len(), twice.len());
        for ((a, arena_a), (b, arena_b)) in once.iter().zip(twice.iter()) {
            assert_eq!(tree(a, arena_a), tree(b, arena_b));
            assert_eq!(format!("{:?}", a), format!("{:?}", b));
            assert_eq!(slots(arena_a), slots(arena_b));
        }
    }
    for src in ["", "[1,", "{\"a\"}", "nope", "]x"] {
        assert_eq!(Par::parse(src, 32).err(), Par::parse(src, 32).err());
        assert!(Par::parse(src, 32).is_err());
    }
}

#[test]
fn the_default_value_is_null() {
    assert!(matches!(JsonValue::default(), JsonValue::Null));
}

#[test]
fn integers_are_kept_by_value_and_decimals_by_text() {
    assert_eq!(single("007"), num(7.0));
    assert_eq!(single("9223372036854775807"), num(9223372036854775807.0));
    assert_eq!(single("1."), num(1.0));
    assert_eq!(single("0.1"), num(0.1));
    assert_eq!(single("123456789.125"), num(123456789.125));
    let (value, _) = Par::parse("2.50", 16).unwrap().pop().unwrap();
    assert!(matches!(value, JsonValue::Number(Number::Decimal(s)) if s == "2.50"));
}

#[test]
fn documents_written_token_by_token_with_a_space_behind_each_are_read_back() {
    assert_eq!(
        trees("{ \"a\" : [ 1 , 2.5 , true ] , \"b\" : null } , [ ] , \"s\" , 007 ", 16).unwrap(),
        vec![
            object(vec![
                ("a", list(vec![num(1.0), num(2.5), Tree::Bool(true)])),
                ("b", Tree::Null),
            ]),
            list(vec![]),
            text("s"),
            num(7.0),
        ]
    );
}
