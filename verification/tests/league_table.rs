use league_table::{football_league, lex, parse, MatchResult, Tokens};

fn run(input: &str) -> Result<String, usize> {
    let lines: Vec<String> = input.lines().map(|l| l.to_string()).collect();
    football_league(&lines)
}

#[test]
fn lex_line() {
    let line = "Lions 3, Snakes 3";
    let expected = Some(Tokens {
        team1: ("Lions".to_string(), 3),
        team2: ("Snakes".to_string(), 3),
    });

    assert_eq!(lex(line), expected);
}

#[test]
fn lex_line_spaces() {
    let line = "Tarantulas 1, FC Awesome 0";
    let expected = Some(Tokens {
        team1: ("Tarantulas".to_string(), 1),
        team2: ("FC Awesome".to_string(), 0),
    });

    assert_eq!(lex(line), expected);
}

#[test]
fn parse_line() {
    let line = "Lions 4, Snakes 3";
    let expected = MatchResult::Win {
        won: "Lions".to_string(),
        lost: "Snakes".to_string(),
    };

    assert_eq!(parse(lex(line).unwrap()), expected);
}

#[test]
fn parse_draw() {
    let line = "Lions 3, Snakes 3";
    let expected = MatchResult::Draw("Lions".to_string(), "Snakes".to_string());

    assert_eq!(parse(lex(line).unwrap()), expected);
}

#[test]
fn full_league() {
    let lines = r#"Lions 3, Snakes 3
Tarantulas 1, FC Awesome 0
Lions 1, FC Awesome 1
Tarantulas 3, Snakes 1
Lions 4, Grouches 0

"#;

    let expected = r#"1. Tarantulas 6 pts
2. Lions 5 pts
3. FC Awesome 1 pt
4. Snakes 1 pt
5. Grouches 0 pts
"#;

    assert_eq!(run(lines), Ok(expected.to_string()));
}

#[test]
fn parse_second_team_wins() {
    let expected = MatchResult::Win {
        won: "Snakes".to_string(),
        lost: "Lions".to_string(),
    };

    assert_eq!(parse(lex("Lions 1, Snakes 2").unwrap()), expected);
}

#[test]
fn lex_collapses_inner_spaces() {
    let tokens = lex("FC   Awesome 2,  Royal   Wasps   7 ").unwrap();
    assert_eq!(tokens.team1, ("FC Awesome".to_string(), 2));
    assert_eq!(tokens.team2, ("Royal Wasps".to_string(), 7));
}

#[test]
fn lex_missing_comma_fails() {
    assert_eq!(lex("Lions 3 Snakes 3"), None);
}

#[test]
fn lex_empty_half_fails() {
    assert_eq!(lex("Lions 3,   "), None);
    assert_eq!(lex(", Snakes 3"), None);
}

#[test]
fn lex_non_numeric_score_fails() {
    assert_eq!(lex("Lions three, Snakes 3"), None);
    assert_eq!(lex("Lions 3, Snakes -1"), None);
    assert_eq!(lex("Lions 3, Snakes"), None);
}

#[test]
fn lex_too_many_halves_fails() {
    assert_eq!(lex("Lions 3, Snakes 3, Grouches 0"), None);
}

#[test]
fn lex_huge_score_fails() {
    assert_eq!(lex("Lions 99999999999999999999, Snakes 3"), None);
}

#[test]
fn lex_plus_sign_score() {
    let tokens = lex("Lions +3, Snakes 0").unwrap();
    assert_eq!(tokens.team1, ("Lions".to_string(), 3));
}

#[test]
fn lex_trailing_comma_tolerated() {
    let tokens = lex("Lions 1, Snakes 0,").unwrap();
    assert_eq!(tokens.team1, ("Lions".to_string(), 1));
    assert_eq!(tokens.team2, ("Snakes".to_string(), 0));
}

#[test]
fn empty_input_empty_output() {
    assert_eq!(run(""), Ok(String::new()));
    assert_eq!(run("\n"), Ok(String::new()));
    assert_eq!(run("   \n"), Ok(String::new()));
}

#[test]
fn blank_line_stops_reading() {
    let out = run("Lions 1, Snakes 0\n\nGarbage here\n").unwrap();
    assert_eq!(out, "1. Lions 3 pts\n2. Snakes 0 pts\n");
}

#[test]
fn bad_line_reports_one_based_number() {
    assert_eq!(run("Lions 1, Snakes 0\ngarbage\n"), Err(2));
    assert_eq!(run("garbage\n"), Err(1));
}

#[test]
fn replay_is_deterministic() {
    let input = "Lions 3, Snakes 3\nTarantulas 1, FC Awesome 0\n";
    let first = run(input);
    let second = run(input);
    assert_eq!(first, second);
}

#[test]
fn accumulation_is_additive() {
    let out = run("Lions 2, Snakes 0\nLions 2, Snakes 0\n").unwrap();
    assert_eq!(out, "1. Lions 6 pts\n2. Snakes 0 pts\n");
}

#[test]
fn equal_points_sort_alphabetically() {
    let out = run("Wasps 1, Ants 1\nBees 0, Cats 0\n").unwrap();
    assert_eq!(out, "1. Ants 1 pt\n2. Bees 1 pt\n3. Cats 1 pt\n4. Wasps 1 pt\n");
}

#[test]
fn ranks_are_contiguous_from_one() {
    let out = run("A 3, B 1\nC 2, D 2\nE 5, F 0\n").unwrap();
    let ranks: Vec<String> = out
        .lines()
        .map(|l| l.split('.').next().unwrap().to_string())
        .collect();
    assert_eq!(ranks, vec!["1", "2", "3", "4", "5", "6"]);
}

#[test]
fn unit_is_singular_only_for_one_point() {
    let out = run("Ants 1, Bees 1\nCats 9, Dogs 0\n").unwrap();
    assert_eq!(out, "1. Cats 3 pts\n2. Ants 1 pt\n3. Bees 1 pt\n4. Dogs 0 pts\n");
}

#[test]
fn draw_on_both_sides_same_team() {
    let out = run("Lions 2, Lions 2\n").unwrap();
    assert_eq!(out, "1. Lions 2 pts\n");
}

#[test]
fn multi_digit_points_render() {
    let input = "Lions 1, Snakes 0\n".repeat(4);
    let out = run(&input).unwrap();
    assert_eq!(out, "1. Lions 12 pts\n2. Snakes 0 pts\n");
}
