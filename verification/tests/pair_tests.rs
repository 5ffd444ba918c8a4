use std::collections::hash_map::DefaultHasher;
use std::hash::{Hash, Hasher};
use std::rc::Rc;
use std::sync::Arc;

use pest::{Pair, QueueableToken, RuleType};

#[allow(non_camel_case_types)]
#[derive(Clone, Copy, Debug, PartialEq, Eq, Hash)]
enum Rule {
    a,
    b,
}

impl RuleType for Rule {
    // Ghost-only item of the verified crate; never called at run time.
    fn name_spec(&self) -> vstd::seq::Seq<char> {
        unreachable!()
    }

    fn name(&self) -> String {
        match self {
            Rule::a => "a".to_string(),
            Rule::b => "b".to_string(),
        }
    }
}

// The event log that a grammar with `a = "a" ~ b ~ "c"` and `b = "b"` records
// on the input "abcde": rule `a` matches [0, 3) and the nested rule `b`
// matches [1, 2).
fn abc_queue() -> Rc<Vec<QueueableToken<Rule>>> {
    Rc::new(vec![
        QueueableToken::Start { end_token_index: 3, input_pos: 0 },
        QueueableToken::Start { end_token_index: 2, input_pos: 1 },
        QueueableToken::End { rule: Rule::b, input_pos: 2 },
        QueueableToken::End { rule: Rule::a, input_pos: 3 },
    ])
}

fn abc_pair() -> Pair<Rule> {
    pest::pair::new(abc_queue(), Arc::new(String::from("abcde")), 0)
}

#[test]
fn test_pretty_print() {
    let pair = abc_pair();

    let expected = r#"{
  "pos": [
    0,
    3
  ],
  "rule": "a",
  "inner": {
    "pos": [
      1,
      2
    ],
    "pairs": [
      {
        "pos": [
          1,
          2
        ],
        "rule": "b",
        "inner": "b"
      }
    ]
  }
}"#;

    assert_eq!(expected, pair.to_json());
}

#[test]
fn pair_into_inner() {
    let pair = abc_pair(); // the tokens a(b())

    let pairs = pair.into_inner(); // the tokens b()

    assert_eq!(2, pairs.tokens().count());
}

#[test]
fn pair_display() {
    assert_eq!("a(0, 3, [b(1, 2)])", abc_pair().to_string());

    let leaf = pest::pair::new(abc_queue(), Arc::new(String::from("abcde")), 1);
    assert_eq!("b(1, 2)", leaf.to_string());
}

#[test]
fn pair_accessors() {
    let pair = abc_pair();
    assert_eq!(Rule::a, pair.as_rule());
    assert_eq!("abc", pair.as_str());
    assert_eq!("abc", pair.as_span().as_str());
    assert_eq!(0, pair.as_span().start());
    assert_eq!(3, pair.as_span().end());
    assert_eq!("abc", pair.clone().into_span().as_str());
}

// The span of a pair always captures the same text as the pair itself.
#[test]
fn as_span_matches_as_str() {
    let pair = abc_pair();
    assert_eq!(pair.as_span().as_str(), pair.as_str());
    let child = pest::pair::new(abc_queue(), Arc::new(String::from("abcde")), 1);
    assert_eq!(child.as_span().as_str(), child.as_str());
}

// A root `a` matching "ab" with a nested `b` matching the second character.
#[test]
fn nested_rule_over_two_chars() {
    let queue = Rc::new(vec![
        QueueableToken::Start { end_token_index: 3, input_pos: 0 },
        QueueableToken::Start { end_token_index: 2, input_pos: 1 },
        QueueableToken::End { rule: Rule::b, input_pos: 2 },
        QueueableToken::End { rule: Rule::a, input_pos: 2 },
    ]);
    let input = Arc::new(String::from("ab"));
    let root = pest::pair::new(Rc::clone(&queue), Arc::clone(&input), 0);
    assert_eq!("ab", root.as_str());

    let child = pest::pair::new(Rc::clone(&queue), Arc::clone(&input), 1);
    assert_eq!("b", child.as_str());

    let inner = root.into_inner();
    assert_eq!(2, inner.tokens().count());
}

// A composite with two children renders each child as one array element.
#[test]
fn multi_child_rendering() {
    let queue = Rc::new(vec![
        QueueableToken::Start { end_token_index: 5, input_pos: 0 },
        QueueableToken::Start { end_token_index: 2, input_pos: 0 },
        QueueableToken::End { rule: Rule::b, input_pos: 1 },
        QueueableToken::Start { end_token_index: 4, input_pos: 1 },
        QueueableToken::End { rule: Rule::b, input_pos: 2 },
        QueueableToken::End { rule: Rule::a, input_pos: 3 },
    ]);
    let input = Arc::new(String::from("xyz"));
    let pair = pest::pair::new(queue, input, 0);

    assert_eq!("a(0, 3, [b(0, 1), b(1, 2)])", pair.to_string());

    let expected = r#"{
  "pos": [
    0,
    3
  ],
  "rule": "a",
  "inner": {
    "pos": [
      0,
      2
    ],
    "pairs": [
      {
        "pos": [
          0,
          1
        ],
        "rule": "b",
        "inner": "x"
      },
      {
        "pos": [
          1,
          2
        ],
        "rule": "b",
        "inner": "y"
      }
    ]
  }
}"#;
    assert_eq!(expected, pair.to_json());
}

// Sibling iteration yields each child once and skips nested ranges.
#[test]
fn pairs_iteration() {
    let pair = abc_pair();
    let mut pairs = pair.into_inner();
    let first = pairs.peek().expect("one child");
    assert_eq!(Rule::b, first.as_rule());
    let child = pairs.next().expect("one child");
    assert_eq!(Rule::b, child.as_rule());
    assert_eq!("b", child.as_str());
    assert!(pairs.next().is_none());

    // a leaf has no children: the inner cursor is exhausted at once
    let leaf = pest::pair::new(abc_queue(), Arc::new(String::from("abcde")), 1);
    assert!(leaf.into_inner().next().is_none());
}

// A root cursor over the whole log visits each top-level match once.
#[test]
fn pairs_root_iteration() {
    let queue = Rc::new(vec![
        QueueableToken::Start { end_token_index: 1, input_pos: 0 },
        QueueableToken::End { rule: Rule::a, input_pos: 1 },
        QueueableToken::Start { end_token_index: 3, input_pos: 1 },
        QueueableToken::End { rule: Rule::b, input_pos: 2 },
    ]);
    let input = Arc::new(String::from("xy"));
    let mut pairs = pest::pairs::new(queue, input, 0, 4);
    let first = pairs.next().expect("first sibling");
    assert_eq!(Rule::a, first.as_rule());
    assert_eq!("x", first.as_str());
    let second = pairs.next().expect("second sibling");
    assert_eq!(Rule::b, second.as_rule());
    assert_eq!("y", second.as_str());
    assert!(pairs.next().is_none());
}

#[test]
fn pairs_single() {
    let pair = abc_pair();
    let mut pairs = pest::Pairs::single(pair);
    let only = pairs.next().expect("the wrapped pair");
    assert_eq!(Rule::a, only.as_rule());
    assert!(pairs.next().is_none());
}

#[test]
fn tokens_flat_sequence() {
    let pair = abc_pair();
    let mut tokens = pair.tokens();
    let mut seen: usize = 0;
    while let Some(_) = tokens.next() {
        seen += 1;
    }
    assert_eq!(4, seen);
    assert_eq!(4, abc_pair().tokens().count());
}

// Pairs from one parse run at one index are equal and hash identically;
// pairs from independent runs are never equal, even over identical content.
#[test]
fn pair_identity_equality() {
    let queue = abc_queue();
    let input = Arc::new(String::from("abcde"));
    let one = pest::pair::new(Rc::clone(&queue), Arc::clone(&input), 0);
    let two = pest::pair::new(Rc::clone(&queue), Arc::clone(&input), 0);
    assert_eq!(one, two);

    let mut h1 = DefaultHasher::new();
    one.hash(&mut h1);
    let mut h2 = DefaultHasher::new();
    two.hash(&mut h2);
    assert_eq!(h1.finish(), h2.finish());

    let other_run = abc_pair();
    assert!(one != other_run);

    let third = pest::pair::new(Rc::clone(&queue), Arc::clone(&input), 1);
    assert!(one != third);
}

// JSON string contents are escaped exactly as the pretty printer has always
// escaped them: quotes, backslashes, and control characters.
#[test]
fn json_escapes_special_characters() {
    let queue: Rc<Vec<QueueableToken<Rule>>> = Rc::new(vec![
        QueueableToken::Start { end_token_index: 1, input_pos: 0 },
        QueueableToken::End { rule: Rule::b, input_pos: 4 },
    ]);
    let input = Arc::new(String::from("\"\\\n\u{1f}x"));
    let pair = pest::pair::new(queue, input, 0);
    let expected = "{\n  \"pos\": [\n    0,\n    4\n  ],\n  \"rule\": \"b\",\n  \"inner\": \"\\\"\\\\\\n\\u001f\"\n}";
    assert_eq!(expected, pair.to_json());
}
