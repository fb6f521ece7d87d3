use boolfuck::{Event, LexError, Program, Source, Token};

fn tokens_of(text: &str) -> Vec<Token> {
    let mut out = Vec::new();
    for c in text.chars() {
        match c {
            '<' => out.push(Token::MoveLeft),
            '>' => out.push(Token::MoveRight),
            '[' => out.push(Token::BracketLeft),
            ']' => out.push(Token::BracketRight),
            ',' => out.push(Token::Read),
            ';' => out.push(Token::Write),
            '+' => out.push(Token::Flip),
            _ => {}
        }
    }
    out
}

fn optimized_text(text: &str) -> String {
    let mut src = Source::new(text).unwrap();
    src.dedup();
    src.render()
}

fn run(text: &str, input: &[u8]) -> Vec<u8> {
    let mut program: Program = Source::new(text).unwrap().gen();
    program.run_on(&input.to_vec(), 100_000)
}

#[test]
fn lexes_commands_and_skips_comments() {
    let src = Source::new("a<b>c[d]e,f;g+h").unwrap();
    assert_eq!(src.len(), 7);
    assert_eq!(src.render(), "<>[],;+");
}

#[test]
fn well_bracketed_text_is_accepted() {
    let src = Source::new("[[+][<>]]").unwrap();
    assert_eq!(src.len(), 9);
}

#[test]
fn extra_closing_bracket_is_rejected() {
    assert_eq!(Source::new("[]]").unwrap_err(), LexError::UnmatchedCloseBracket);
    assert_eq!(Source::new("]").unwrap_err(), LexError::UnmatchedCloseBracket);
    assert_eq!(Source::new("+][").unwrap_err(), LexError::UnmatchedCloseBracket);
}

#[test]
fn missing_closing_brackets_are_counted() {
    assert_eq!(Source::new("[").unwrap_err(), LexError::UnmatchedOpenBrackets(1));
    assert_eq!(Source::new("[[+[]").unwrap_err(), LexError::UnmatchedOpenBrackets(2));
    assert_eq!(Source::new("[[[").unwrap_err(), LexError::UnmatchedOpenBrackets(3));
}

#[test]
fn empty_text_is_an_empty_program() {
    let src = Source::new("").unwrap();
    assert_eq!(src.len(), 0);
    assert_eq!(src.render(), "");
}

#[test]
fn symbols_match_the_source_alphabet() {
    assert_eq!(Token::MoveLeft.symbol(), '<');
    assert_eq!(Token::MoveRight.symbol(), '>');
    assert_eq!(Token::BracketLeft.symbol(), '[');
    assert_eq!(Token::BracketRight.symbol(), ']');
    assert_eq!(Token::Read.symbol(), ',');
    assert_eq!(Token::Write.symbol(), ';');
    assert_eq!(Token::Flip.symbol(), '+');
}

#[test]
fn rendering_and_relexing_round_trips() {
    let text = ",>+[<;>[+]+]<<;";
    let src = Source::new(text).unwrap();
    let rendered = src.render();
    assert_eq!(rendered, text);
    let again = Source::new(&rendered).unwrap();
    assert_eq!(again.render(), rendered);
    assert_eq!(tokens_of(&again.render()), tokens_of(text));
}

#[test]
fn double_flip_optimizes_to_empty() {
    assert_eq!(optimized_text("++"), "");
    assert_eq!(optimized_text("++++"), "");
    assert_eq!(optimized_text("+++"), "+");
}

#[test]
fn right_then_left_optimizes_to_empty() {
    assert_eq!(optimized_text("><"), "");
    assert_eq!(optimized_text("<>"), "");
    assert_eq!(optimized_text(">><<"), "");
}

#[test]
fn leading_loop_optimizes_to_empty() {
    assert_eq!(optimized_text("[+,;[>]<]"), "");
    assert_eq!(optimized_text("[]"), "");
    assert_eq!(optimized_text("[+][;];"), ";");
}

#[test]
fn loop_after_dropped_loop_is_dropped() {
    assert_eq!(optimized_text("[+][,][;]"), "");
    assert_eq!(optimized_text("++[+]<>[,];"), ";");
}

#[test]
fn loop_after_kept_loop_is_kept() {
    assert_eq!(optimized_text("+[+]++[;;]"), "+[+][;;]");
    assert_eq!(optimized_text("+[+][,]"), "+[+][,]");
}

#[test]
fn loop_after_other_commands_is_kept() {
    assert_eq!(optimized_text("+[;+]"), "+[;+]");
    assert_eq!(optimized_text(",[;]"), ",[;]");
}

#[test]
fn dedup_removes_simple_duplicates() {
    let mut source = Source::new("[]++ >++< <>").unwrap();
    source.dedup();
    assert_eq!(source.len(), 0);

    let mut source = Source::new("+[]++[+,;++++>>>>><<<][]").unwrap();
    source.dedup();
    assert_eq!(source.len(), 12);
    assert_eq!(source.render(), "+[][+,;>>][]");
}

#[test]
fn optimizing_twice_equals_once() {
    for text in ["+[]++[+,;++++>>>>><<<][]", ",>+<<>>+;[+]++[;]", "+>+<+>><<;", "[,][;]+++;"] {
        let once = optimized_text(text);
        let twice = optimized_text(&once);
        assert_eq!(once, twice);
    }
}

#[test]
fn optimized_program_behaves_the_same() {
    for text in [",>,>,>,>,>,>,>,<<<<<<<;>;>;>;>;>;>;>;", "+>++<<>;;;;;;;;", "[,;]+[>;+<+];", ",[>+<+];;"] {
        let plain = run(text, &[0x41, 0x7e]);
        let mut src = Source::new(text).unwrap();
        src.dedup();
        let mut program = src.gen();
        let optimized = program.run_on(&vec![0x41, 0x7e], 100_000);
        assert_eq!(plain, optimized);
    }
}

#[test]
fn echo_of_one_byte() {
    let out = run(",>,>,>,>,>,>,>,<<<<<<<;>;>;>;>;>;>;>;", &[0x41]);
    assert_eq!(out, vec![0x41]);
}

#[test]
fn single_flip_and_write_flushes_partial_byte() {
    let out = run("+;", &[]);
    assert_eq!(out, vec![0b1000_0000]);
}

#[test]
fn eight_writes_make_one_byte_and_no_partial() {
    let out = run("+;;+;;+;;+;;", &[]);
    assert_eq!(out, vec![0b1100_1100]);
    let out = run(";;;;;;;;", &[]);
    assert_eq!(out, vec![0]);
}

#[test]
fn program_without_writes_outputs_nothing() {
    assert_eq!(run("+>+<[>]", &[]), Vec::<u8>::new());
}

#[test]
fn read_waits_for_input() {
    let mut program = Source::new(",;").unwrap().gen();
    assert_eq!(program.step(), Event::NeedsInput);
    assert_eq!(program.step(), Event::NeedsInput);
    program.feed(0xff);
    assert_eq!(program.step(), Event::Continued);
    assert_eq!(program.step(), Event::Continued);
    assert!(program.is_halted());
    assert_eq!(program.step(), Event::Output(0b1000_0000));
    assert_eq!(program.step(), Event::Halted);
}

#[test]
fn input_runs_out() {
    let out = run(",;,;,;,;,;,;,;,;,;", &[0b1010_0000]);
    assert_eq!(out, vec![0b1010_0000]);
}

#[test]
fn reads_take_the_most_significant_bit_first() {
    let mut program = Source::new(",").unwrap().gen();
    program.run_on(&vec![0b1000_0000], 10);
    let (a, b) = program.tape();
    let all: Vec<u8> = a.iter().chain(b.iter()).cloned().collect();
    assert_eq!(all, vec![1]);
}

#[test]
fn tape_starts_with_one_zero_cell() {
    let program = Source::new("").unwrap().gen();
    let (a, b) = program.tape();
    let all: Vec<u8> = a.iter().chain(b.iter()).cloned().collect();
    assert_eq!(all, vec![0]);
}

#[test]
fn tape_grows_to_the_left_and_right() {
    let mut program = Source::new("<+>>>>>>>>>+").unwrap().gen();
    program.run_on(&vec![], 100);
    let (a, b) = program.tape();
    let all: Vec<u8> = a.iter().chain(b.iter()).cloned().collect();
    assert_eq!(all, vec![0b1000_0000, 0b0000_0000, 0b0000_0001]);
}

#[test]
fn loop_runs_while_bit_is_set() {
    // move right while the bits are one, then write the zero found there
    let out = run("+>+>+>+<<<[>]+;", &[]);
    assert_eq!(out, vec![0b1000_0000]);
    let mut program = Source::new("+>+>+<<[>]+").unwrap().gen();
    program.run_on(&vec![], 1000);
    let (a, b) = program.tape();
    let all: Vec<u8> = a.iter().chain(b.iter()).cloned().collect();
    assert_eq!(all, vec![0b0000_1111]);
}

#[test]
fn flip_toggles_the_bit() {
    let mut program = Source::new("+>+<+").unwrap().gen();
    program.run_on(&vec![], 100);
    let (a, b) = program.tape();
    let all: Vec<u8> = a.iter().chain(b.iter()).cloned().collect();
    assert_eq!(all, vec![0b0000_0010]);
}

#[test]
fn step_budget_stops_an_endless_loop() {
    let mut program = Source::new("+[]").unwrap().gen();
    let out = program.run_on(&vec![], 1000);
    assert!(out.is_empty());
    assert!(!program.is_halted());
}

#[test]
fn brainfuck_echo() {
    let mut program = Source::from_brainfuck(",.").unwrap().gen();
    let out = program.run_on(&vec![0x41], 100_000);
    assert_eq!(out, vec![0x41]);
}

#[test]
fn brainfuck_translation_text() {
    let src = Source::from_brainfuck("<x>").unwrap();
    assert_eq!(src.render(), "<<<<<<<<<>>>>>>>>>");
    assert_eq!(Source::from_brainfuck("]").unwrap_err(), LexError::UnmatchedCloseBracket);
    assert_eq!(Source::from_brainfuck("[").unwrap_err(), LexError::UnmatchedOpenBrackets(1));
}

#[test]
fn brainfuck_increment_and_print() {
    let mut program = Source::from_brainfuck("+++.").unwrap().gen();
    let out = program.run_on(&vec![], 1_000_000);
    // the translation keeps the least significant bit of a cell first, and
    // output sends the first bit as the most significant one
    assert_eq!(out, vec![0b1100_0000]);
}
