use csvgen::grammar::{parse_count, split_commands};
use csvgen::ramp::{advance, parse_directive, Directive, Level, Step};
use csvgen::{single_line_gencsv_with_ramps, CsvError};

fn level_value(level: &Level) -> f64 {
    match level {
        Level::Zero => 0.0,
        Level::Target(text) => text.parse::<f64>().unwrap(),
    }
}

fn render(steps: &[Step]) -> Vec<String> {
    let mut lines = Vec::new();
    for step in steps {
        match step {
            Step::Hold { level, samples } => {
                let value = level_value(level);
                for _ in 0..*samples {
                    lines.push(value.to_string());
                }
            }
            Step::Ramp { from, target, samples } => {
                let target = target.parse::<f64>().unwrap();
                let mut value = level_value(from);
                let increment = (target - value) / *samples as f64;
                for _ in 0..*samples {
                    value += increment;
                    lines.push(value.to_string());
                }
            }
        }
    }
    lines
}

fn total(steps: &[Step]) -> u64 {
    steps
        .iter()
        .map(|step| match step {
            Step::Hold { samples, .. } => *samples,
            Step::Ramp { samples, .. } => *samples,
        })
        .sum()
}

#[test]
fn hold_of_ten_gives_ten_zero_lines() {
    let steps = single_line_gencsv_with_ramps("$10$").unwrap();
    assert_eq!(steps, vec![Step::Hold { level: Level::Zero, samples: 10 }]);
    let lines = render(&steps);
    assert_eq!(lines.len(), 10);
    for line in &lines {
        assert_eq!(line, "0");
    }
}

#[test]
fn ramp_to_hundred_in_hundred_lines() {
    let steps = single_line_gencsv_with_ramps("/100,100/").unwrap();
    assert_eq!(
        steps,
        vec![Step::Ramp { from: Level::Zero, target: "100".to_string(), samples: 100 }]
    );
    let lines = render(&steps);
    assert_eq!(lines.len(), 100);
    assert_eq!(lines[99], "100");
    let middle = lines[49].parse::<f64>().unwrap();
    assert!((middle - 50.0).abs() < 1e-9);
    let first = lines[0].parse::<f64>().unwrap();
    assert!(first > 0.0 && (first - 1.0).abs() < 1e-9);
}

#[test]
fn four_directives_give_hundred_and_fifty_lines() {
    let steps = single_line_gencsv_with_ramps("$10$+/100,100/+/50,10/+$30$").unwrap();
    assert_eq!(
        steps,
        vec![
            Step::Hold { level: Level::Zero, samples: 10 },
            Step::Ramp { from: Level::Zero, target: "100".to_string(), samples: 100 },
            Step::Ramp {
                from: Level::Target("100".to_string()),
                target: "50".to_string(),
                samples: 10,
            },
            Step::Hold { level: Level::Target("50".to_string()), samples: 30 },
        ]
    );
    assert_eq!(total(&steps), 150);
    let lines = render(&steps);
    assert_eq!(lines.len(), 10 + 100 + 10 + 30);
    assert_eq!(lines[9], "0");
    assert_eq!(lines[109], "100");
    assert_eq!(lines[110], "95");
    assert_eq!(lines[119], "50");
    assert_eq!(lines[139], "50");
    assert_eq!(lines[149], "50");
}

#[test]
fn text_that_is_no_directive_is_a_format_error() {
    assert_eq!(single_line_gencsv_with_ramps("abc"), Err(CsvError::Format));
}

#[test]
fn empty_pieces_are_format_errors() {
    assert_eq!(single_line_gencsv_with_ramps(""), Err(CsvError::Format));
    assert_eq!(single_line_gencsv_with_ramps("+$1$"), Err(CsvError::Format));
    assert_eq!(single_line_gencsv_with_ramps("$1$+"), Err(CsvError::Format));
    assert_eq!(single_line_gencsv_with_ramps("$1$++$2$"), Err(CsvError::Format));
}

#[test]
fn near_misses_of_the_grammar_are_format_errors() {
    for text in [
        "$$", "$-1$", "$+1$", "$1", "1$", "$1$ ", " $1$", "$1.5$", "$a$", "$1$\n", "//", "/1/",
        "/,1/", "/1,/", "/1,1", "1,1/", "/1.,1/", "/.5,1/", "/1,1.5/", "/1,-1/", "/1,+1/",
        "/--1,1/", "/1e3,1/", "/1,1,1/", "/1.2.3,1/", "/ 1,1/", "/1,1/x", "$\u{0661}$",
        "/\u{0661},1/",
    ] {
        assert_eq!(parse_directive(text), Err(CsvError::Format), "{:?}", text);
    }
}

#[test]
fn directives_are_read_as_written() {
    assert_eq!(parse_directive("$0$"), Ok(Directive::Hold { samples: 0 }));
    assert_eq!(parse_directive("$007$"), Ok(Directive::Hold { samples: 7 }));
    assert_eq!(
        parse_directive("$18446744073709551615$"),
        Ok(Directive::Hold { samples: u64::MAX })
    );
    assert_eq!(
        parse_directive("/5,3/"),
        Ok(Directive::Ramp { target: "5".to_string(), samples: 3 })
    );
    assert_eq!(
        parse_directive("/-12.50,4/"),
        Ok(Directive::Ramp { target: "-12.50".to_string(), samples: 4 })
    );
    assert_eq!(
        parse_directive("/+0.25,0/"),
        Ok(Directive::Ramp { target: "+0.25".to_string(), samples: 0 })
    );
}

#[test]
fn a_count_over_sixty_four_bits_is_a_number_error() {
    assert_eq!(parse_directive("$18446744073709551616$"), Err(CsvError::Number));
    assert_eq!(parse_directive("/1,99999999999999999999/"), Err(CsvError::Number));
    assert_eq!(
        single_line_gencsv_with_ramps("$1$+$99999999999999999999$"),
        Err(CsvError::Number)
    );
}

#[test]
fn the_first_refused_piece_decides_the_error() {
    assert_eq!(
        single_line_gencsv_with_ramps("$1$+abc+$99999999999999999999$"),
        Err(CsvError::Format)
    );
    assert_eq!(
        single_line_gencsv_with_ramps("$99999999999999999999$+abc"),
        Err(CsvError::Number)
    );
}

#[test]
fn directives_without_samples_do_nothing() {
    assert_eq!(single_line_gencsv_with_ramps("$0$"), Ok(vec![]));
    assert_eq!(single_line_gencsv_with_ramps("/7,0/"), Ok(vec![]));
    let steps = single_line_gencsv_with_ramps("/7,0/+$2$").unwrap();
    assert_eq!(steps, vec![Step::Hold { level: Level::Zero, samples: 2 }]);
    assert_eq!(render(&steps), vec!["0", "0"]);
}

#[test]
fn a_hold_keeps_the_level_and_a_ramp_moves_it() {
    let steps = single_line_gencsv_with_ramps("/3,2/+$0$+/9,0/+$2$+/-1.5,3/+$1$").unwrap();
    assert_eq!(
        steps,
        vec![
            Step::Ramp { from: Level::Zero, target: "3".to_string(), samples: 2 },
            Step::Hold { level: Level::Target("3".to_string()), samples: 2 },
            Step::Ramp {
                from: Level::Target("3".to_string()),
                target: "-1.5".to_string(),
                samples: 3,
            },
            Step::Hold { level: Level::Target("-1.5".to_string()), samples: 1 },
        ]
    );
    assert_eq!(render(&steps), vec!["1.5", "3", "3", "3", "1.5", "0", "-1.5", "-1.5"]);
}

#[test]
fn lines_are_as_many_as_the_counts_add_up_to() {
    for (command, lines) in [
        ("$3$", 3u64),
        ("$3$+$4$", 7),
        ("/1,5/+$0$+/2,0/+/-3.5,6/", 11),
        ("$0$+$0$", 0),
        ("/1.0,1/+/-1.0,1/", 2),
    ] {
        let steps = single_line_gencsv_with_ramps(command).unwrap();
        assert_eq!(total(&steps), lines);
        assert_eq!(render(&steps).len() as u64, lines);
    }
}

#[test]
fn a_plus_sign_in_a_target_cuts_the_directive() {
    assert_eq!(split_commands("/+1.0,1/"), vec!["/", "1.0,1/"]);
    assert_eq!(single_line_gencsv_with_ramps("/+1.0,1/"), Err(CsvError::Format));
}

#[test]
fn advance_gives_the_run_and_the_next_level() {
    let zero = Level::Zero;
    let hold = Directive::Hold { samples: 4 };
    assert_eq!(
        advance(&zero, &hold),
        (Some(Step::Hold { level: Level::Zero, samples: 4 }), Level::Zero)
    );
    let ramp = Directive::Ramp { target: "2.5".to_string(), samples: 2 };
    assert_eq!(
        advance(&zero, &ramp),
        (
            Some(Step::Ramp { from: Level::Zero, target: "2.5".to_string(), samples: 2 }),
            Level::Target("2.5".to_string())
        )
    );
    let at = Level::Target("2.5".to_string());
    assert_eq!(advance(&at, &Directive::Hold { samples: 0 }), (None, at.clone()));
    let idle = Directive::Ramp { target: "8".to_string(), samples: 0 };
    assert_eq!(advance(&at, &idle), (None, at.clone()));
}

#[test]
fn advancing_piece_by_piece_gives_the_whole_plan() {
    let command = "$2$+/10,4/+/3,0/+$1$+/-2,2/";
    let mut level = Level::Zero;
    let mut steps = Vec::new();
    for token in split_commands(command) {
        let directive = parse_directive(&token).unwrap();
        let (step, next) = advance(&level, &directive);
        steps.extend(step);
        level = next;
    }
    assert_eq!(Ok(steps), single_line_gencsv_with_ramps(command));
    assert_eq!(level, Level::Target("-2".to_string()));
}

#[test]
fn a_command_is_cut_at_every_separator() {
    assert_eq!(split_commands(""), vec![""]);
    assert_eq!(split_commands("abc"), vec!["abc"]);
    assert_eq!(split_commands("+"), vec!["", ""]);
    assert_eq!(split_commands("a+"), vec!["a", ""]);
    assert_eq!(split_commands("+a"), vec!["", "a"]);
    assert_eq!(split_commands("a++b"), vec!["a", "", "b"]);
    assert_eq!(split_commands("$10$+/100,100/+$30$"), vec!["$10$", "/100,100/", "$30$"]);
    assert_eq!(split_commands("/+1,2/"), vec!["/", "1,2/"]);
}

#[test]
fn splitting_agrees_with_the_standard_split() {
    for text in ["", "+", "++", "a+b+c", "$1$+/2,3/", "+x+", "é+ü"] {
        let expected: Vec<String> = text.split('+').map(|piece| piece.to_string()).collect();
        assert_eq!(split_commands(text), expected);
        assert_eq!(split_commands(text).join("+"), text);
    }
}

#[test]
fn counts_are_read_in_base_ten() {
    assert_eq!(parse_count("0"), Some(0));
    assert_eq!(parse_count("10"), Some(10));
    assert_eq!(parse_count("0000000000000000000000042"), Some(42));
    assert_eq!(parse_count("18446744073709551615"), Some(u64::MAX));
    assert_eq!(parse_count("18446744073709551616"), None);
    assert_eq!(parse_count("184467440737095516150"), None);
    assert_eq!(parse_count(""), None);
    assert_eq!(parse_count("+1"), None);
    assert_eq!(parse_count("-1"), None);
    assert_eq!(parse_count("1 "), None);
    assert_eq!(parse_count("1a"), None);
    assert_eq!(parse_count("99999999999999999999x"), None);
}

#[test]
fn cloned_values_are_equal() {
    let directive = Directive::Ramp { target: "1.5".to_string(), samples: 3 };
    assert_eq!(directive.clone(), directive);
    let step = Step::Ramp { from: Level::Target("2".to_string()), target: "1".to_string(), samples: 1 };
    assert_eq!(step.clone(), step);
}
