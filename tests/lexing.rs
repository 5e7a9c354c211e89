use circuit::gate::{App, EvalError};
use circuit::lexer::{instructions, str_to_vec, parse_number, split_words, LexInstruction};

fn chars(x: &str) -> Vec<char> {
    x.chars().collect()
}

fn line(x: &str) -> Option<LexInstruction> {
    LexInstruction::from_chars(&chars(x))
}

#[test]
fn parses_each_line_form() {
    match line("DEF XOR 2") {
        Some(LexInstruction::Def { name, inputs }) => {
            assert_eq!(name, "XOR");
            assert_eq!(inputs, 2);
        },
        _ => panic!("not a definition"),
    }
    match line("a: AND 0,1 -> 2") {
        Some(LexInstruction::Gate { inputs, gate, outputs, label }) => {
            assert_eq!(inputs, vec![0, 1]);
            assert_eq!(gate, "AND");
            assert_eq!(outputs, vec![2]);
            assert_eq!(label, Some("a".to_string()));
        },
        _ => panic!("not an invoke"),
    }
    match line("NOT 2 -> 3") {
        Some(LexInstruction::Gate { label, .. }) => assert_eq!(label, None),
        _ => panic!("not an invoke"),
    }
    match line("  b:\tGOTO   a  ") {
        Some(LexInstruction::Goto { goto, label }) => {
            assert_eq!(goto, "a");
            assert_eq!(label, Some("b".to_string()));
        },
        _ => panic!("not a jump"),
    }
    match line("OUT 3,4") {
        Some(LexInstruction::Out { outputs }) => assert_eq!(outputs, vec![3, 4]),
        _ => panic!("not an output list"),
    }
}

#[test]
fn rejects_malformed_lines() {
    assert!(line("AND 0,x -> 2").is_none());
    assert!(line("DEF X").is_none());
    assert!(line("DEF X two").is_none());
    assert!(line("OUT 1,,2").is_none());
    assert!(line("AND 0,1 2").is_none());
    assert!(line("").is_none());
    assert!(line(": GOTO a").is_none());
}

#[test]
fn number_lists() {
    assert_eq!(str_to_vec(&chars("1,2,3"), ','), Some(vec![1, 2, 3]));
    assert_eq!(str_to_vec(&chars("7"), ','), Some(vec![7]));
    assert_eq!(str_to_vec(&chars(""), ','), None);
    assert_eq!(str_to_vec(&chars("1,"), ','), None);
    assert_eq!(str_to_vec(&chars("1;2"), ';'), Some(vec![1, 2]));
    assert_eq!(parse_number(&chars("18446744073709551615")), Some(usize::MAX));
    assert_eq!(parse_number(&chars("18446744073709551616")), None);
    assert_eq!(parse_number(&chars("042")), Some(42));
}

#[test]
fn words_split_on_blanks() {
    let w = split_words(&chars(" a  b\tc "));
    assert_eq!(w, vec![vec!['a'], vec!['b'], vec!['c']]);
}

#[test]
fn text_skips_blank_lines_and_stops_on_bad_ones() {
    let v = instructions(&chars("DEF G 1\n\nNOT 0 -> 1\nOUT 1\n")).unwrap();
    assert_eq!(v.len(), 3);
    assert!(instructions(&chars("DEF G 1\nbogus line\nOUT 1")).is_none());
}

#[test]
fn end_to_end_xor_text() {
    let text = "DEF XOR 2\n\
                a: AND 0,1 -> 2\n\
                b: NOT 2 -> 3\n\
                NOT 0 -> 4\n\
                NOT 1 -> 5\n\
                AND 4,5 -> 6\n\
                NOT 6 -> 7\n\
                AND 3,7 -> 8\n\
                OUT 8\n";
    let app = App::from_with_defaults(instructions(&chars(text)).unwrap()).unwrap();
    let xor = "XOR".to_string();
    assert_eq!(app.evaluate(&xor, vec![true, false]), Ok(vec![true]));
    assert_eq!(app.evaluate(&xor, vec![false, true]), Ok(vec![true]));
    assert_eq!(app.evaluate(&xor, vec![true, true]), Ok(vec![false]));
    assert_eq!(app.evaluate(&xor, vec![false, false]), Ok(vec![false]));
    assert_eq!(app.evaluate(&xor, vec![false]), Err(EvalError::ArityMismatch));
}

#[test]
fn spec_stream_prefix_is_nand() {
    let text = "DEF NAND 2\na: AND 0,1 -> 2\nb: NOT 2 -> 3\nOUT 3";
    let app = App::from_with_defaults(instructions(&chars(text)).unwrap()).unwrap();
    let nand = "NAND".to_string();
    assert_eq!(app.evaluate(&nand, vec![true, true]), Ok(vec![false]));
    assert_eq!(app.evaluate(&nand, vec![true, false]), Ok(vec![true]));
}

#[test]
fn leading_plus_is_accepted() {
    assert_eq!(parse_number(&chars("+1")), Some(1));
    assert_eq!(parse_number(&chars("+")), None);
    assert_eq!(parse_number(&chars("-1")), None);
    assert_eq!(parse_number(&chars("++1")), None);
    assert_eq!(str_to_vec(&chars("+1,2"), ','), Some(vec![1, 2]));
    match line("DEF G +2") {
        Some(LexInstruction::Def { inputs, .. }) => assert_eq!(inputs, 2),
        _ => panic!("not a definition"),
    }
}

#[test]
fn keywords_in_any_case() {
    assert!(matches!(line("def G 1"), Some(LexInstruction::Def { .. })));
    assert!(matches!(line("Out 1"), Some(LexInstruction::Out { .. })));
    assert!(matches!(line("x: goto y"), Some(LexInstruction::Goto { .. })));
    assert!(line("DEF? G 1").is_none());
}
