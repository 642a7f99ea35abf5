use lindenmayer::system::LSystem;
use lindenmayer::turtle::interpret;
use lindenmayer::turtle::Polyline;
use lindenmayer::LsError;

fn chars(s: &str) -> Vec<char> {
    s.chars().collect()
}

fn string_of(v: &[char]) -> String {
    v.iter().collect()
}

fn moves_of(paths: &[Polyline]) -> Vec<Vec<Vec<i128>>> {
    paths
        .iter()
        .map(|l| l.points.iter().map(|p| p.moves.clone()).collect())
        .collect()
}

#[test]
fn parses_rule_string() {
    let ls = LSystem::new(0, &chars(" F => AB , G=>F "), &chars("F")).unwrap();
    assert_eq!(ls.symbols, vec!['F', 'G']);
    // Only the clause's edges are trimmed; spaces inside stay.
    assert_eq!(string_of(&ls.rules[0]), "  AB");
    assert_eq!(string_of(&ls.rules[1]), "F");
    assert_eq!(string_of(&ls.rulestring), " F => AB , G=>F ");
}

#[test]
fn parses_clause_without_arrow() {
    // The arrow token is removed wherever it occurs; a clause without one
    // still parses: first character, then the replacement.
    let ls = LSystem::new(0, &chars("FAB"), &chars("F")).unwrap();
    assert_eq!(ls.symbols, vec!['F']);
    assert_eq!(string_of(&ls.rules[0]), "AB");
}

#[test]
fn arrow_removal_is_single_pass() {
    // Arrow tokens are removed left to right without rescanning, so
    // overlapping `=` and `>` runs leave a residue, just as a plain
    // string replacement would.
    let ls = LSystem::new(0, &chars("A==>>B"), &chars("A")).unwrap();
    assert_eq!(ls.symbols, vec!['A']);
    assert_eq!(string_of(&ls.rules[0]), "=>B");
}

#[test]
fn trims_tabs_and_newlines() {
    let ls = LSystem::new(7, &chars("\tF=>FF\n, \r G=>F"), &chars("F")).unwrap();
    assert_eq!(ls.symbols, vec!['F', 'G']);
    assert_eq!(string_of(&ls.rules[0]), "FF");
    assert_eq!(ls.iteration_count(), 7);
}

#[test]
fn empty_clause_is_malformed() {
    assert_eq!(
        LSystem::new(1, &chars("F=>F,,G=>G"), &chars("F")).unwrap_err(),
        LsError::MalformedRule
    );
    assert_eq!(
        LSystem::new(1, &chars(""), &chars("F")).unwrap_err(),
        LsError::MalformedRule
    );
    assert_eq!(
        LSystem::new(1, &chars("  =>  "), &chars("F")).unwrap_err(),
        LsError::MalformedRule
    );
}

#[test]
fn duplicate_symbol_is_malformed() {
    assert_eq!(
        LSystem::new(1, &chars("F=>A,F=>B"), &chars("F")).unwrap_err(),
        LsError::MalformedRule
    );
}

#[test]
fn too_many_rules_is_malformed() {
    // Four rules fit the placeholder budget, five do not.
    assert!(LSystem::new(1, &chars("A=>B,B=>C,C=>D,D=>A"), &chars("A")).is_ok());
    assert_eq!(
        LSystem::new(1, &chars("A=>B,B=>C,C=>D,D=>E,E=>A"), &chars("A")).unwrap_err(),
        LsError::MalformedRule
    );
}

#[test]
fn reserved_replacement_is_rejected() {
    // A replacement that holds a reserved placeholder character could
    // corrupt the two-phase substitution, so it is refused outright.
    let rule: String = format!("F=>F{}F", '\u{e000}');
    assert_eq!(
        LSystem::new(1, &chars(&rule), &chars("F")).unwrap_err(),
        LsError::PlaceholderCollision
    );
}

#[test]
fn reserved_seed_is_rejected() {
    let seed: String = format!("F{}", '\u{e002}');
    assert_eq!(
        LSystem::new(1, &chars("F=>FF"), &chars(&seed)).unwrap_err(),
        LsError::PlaceholderCollision
    );
}

#[test]
fn zero_iterations_keep_seed() {
    let mut ls = LSystem::new(0, &chars("F=>F+F--F+F"), &chars("F+F")).unwrap();
    ls.fill_string();
    assert_eq!(string_of(ls.derived_string()), "F+F");
}

#[test]
fn expansion_is_deterministic() {
    let run = || {
        let mut ls = LSystem::new(3, &chars("X=>F[-X][+X]"), &chars("X")).unwrap();
        ls.fill_string();
        let derived = string_of(ls.derived_string());
        ls.fill_vertices().unwrap();
        (derived, moves_of(&ls.vertices))
    };
    assert_eq!(run(), run());
}

#[test]
fn koch_single_round() {
    let mut ls = LSystem::new(1, &chars("F=>F+F--F+F"), &chars("F")).unwrap();
    ls.fill_string();
    assert_eq!(string_of(ls.derived_string()), "F+F--F+F");
}

#[test]
fn koch_geometry() {
    let mut ls = LSystem::new(1, &chars("F=>F+F--F+F"), &chars("F")).unwrap();
    ls.fill_string();
    ls.fill_vertices().unwrap();
    // One bracket-free polyline of five points, starting at the origin.
    assert_eq!(ls.vertices.len(), 1);
    let points = moves_of(&ls.vertices).remove(0);
    assert_eq!(
        points,
        vec![
            vec![],
            vec![0],
            vec![0, -1],
            vec![0, -1, 1],
            vec![0, -1, 1, 0],
        ]
    );
    // The turning over the derived string sums to zero.
    let derived = ls.derived_string().clone();
    let net: i64 = derived
        .iter()
        .map(|c| match c {
            '-' => 1i64,
            '+' => -1i64,
            _ => 0,
        })
        .sum();
    assert_eq!(net, 0);
}

#[test]
fn simultaneous_substitution_sierpinski() {
    // Each round rewrites the whole pre-round string at once: symbols a
    // replacement brings in are not rewritten until the next round.
    let mut ls = LSystem::new(2, &chars("F=>G-F-G, G=>F+G+F"), &chars("F")).unwrap();
    ls.fill_string();
    assert_eq!(string_of(ls.derived_string()), "F+G+F-G-F-G-F+G+F");
}

#[test]
fn simultaneous_substitution_dragon() {
    let mut ls = LSystem::new(2, &chars("F=>F+X, X=>F-X"), &chars("F")).unwrap();
    ls.fill_string();
    assert_eq!(string_of(ls.derived_string()), "F+X+F-X");
}

#[test]
fn rule_free_symbols_survive() {
    let mut ls = LSystem::new(4, &chars("A=>AB"), &chars("C")).unwrap();
    ls.fill_string();
    assert_eq!(string_of(ls.derived_string()), "C");
}

#[test]
fn branch_example() {
    let mut ls = LSystem::new(1, &chars("X=>F[-X][+X]"), &chars("X")).unwrap();
    ls.fill_string();
    assert_eq!(string_of(ls.derived_string()), "F[-X][+X]");
    ls.fill_vertices().unwrap();
    // Two closed branches plus the trailing polyline: the string ends at
    // a `]`, so the trailing polyline is the degenerate single restored
    // point.
    let paths = moves_of(&ls.vertices);
    assert_eq!(paths.len(), 3);
    assert_eq!(paths[0], vec![vec![], vec![0], vec![0, 1]]);
    assert_eq!(paths[1], vec![vec![0], vec![0, -1]]);
    assert_eq!(paths[2], vec![vec![0]]);
}

#[test]
fn bracket_accounting() {
    // Three matched pairs, none unmatched: four polylines.
    let r = interpret(&chars("F[F][F[F]]F")).unwrap();
    assert_eq!(r.len(), 4);
}

#[test]
fn no_brackets_single_path() {
    // Unknown symbols are ignored; forward symbols each add one point.
    let r = interpret(&chars("FaQ+G-X")).unwrap();
    assert_eq!(r.len(), 1);
    assert_eq!(r[0].points.len(), 4);
}

#[test]
fn empty_string_single_point_path() {
    let r = interpret(&chars("")).unwrap();
    assert_eq!(moves_of(&r), vec![vec![Vec::<i128>::new()]]);
}

#[test]
fn unbalanced_bracket_is_reported() {
    assert_eq!(
        interpret(&chars("F]F")).unwrap_err(),
        LsError::UnbalancedBracket(1)
    );
    assert_eq!(
        interpret(&chars("][")).unwrap_err(),
        LsError::UnbalancedBracket(0)
    );
    // A pair already closed does not excuse a later stray `]`.
    assert_eq!(
        interpret(&chars("[F]]")).unwrap_err(),
        LsError::UnbalancedBracket(3)
    );
}

#[test]
fn unbalanced_leaves_system_unchanged() {
    let mut ls = LSystem::new(0, &chars("F=>F]"), &chars("F]")).unwrap();
    ls.fill_string();
    assert_eq!(
        ls.fill_vertices().unwrap_err(),
        LsError::UnbalancedBracket(1)
    );
    assert!(ls.vertices.is_empty());
    assert_eq!(string_of(ls.derived_string()), "F]");
}

#[test]
fn fill_vertices_appends() {
    let mut ls = LSystem::new(1, &chars("F=>F+F"), &chars("F")).unwrap();
    ls.fill_string();
    ls.fill_vertices().unwrap();
    ls.fill_vertices().unwrap();
    assert_eq!(ls.vertices.len(), 2);
    assert_eq!(moves_of(&ls.vertices)[0], moves_of(&ls.vertices)[1]);
}

#[test]
fn branch_restores_position_and_heading() {
    // After a branch closes, drawing continues from the saved state.
    let r = interpret(&chars("F[+F]F")).unwrap();
    let paths = moves_of(&r);
    assert_eq!(paths.len(), 2);
    assert_eq!(paths[0], vec![vec![], vec![0], vec![0, -1]]);
    assert_eq!(paths[1], vec![vec![0], vec![0, 0]]);
}

#[test]
fn nested_branches() {
    let r = interpret(&chars("F[-F[-F]]")).unwrap();
    let paths = moves_of(&r);
    assert_eq!(paths.len(), 3);
    assert_eq!(paths[0], vec![vec![], vec![0], vec![0, 1], vec![0, 1, 2]]);
    assert_eq!(paths[1], vec![vec![0, 1]]);
    assert_eq!(paths[2], vec![vec![0]], "restored to the outer state");
    // The final path continues from the restored outer position.
    let r2 = interpret(&chars("F[-F[-F]]GF")).unwrap();
    let paths2 = moves_of(&r2);
    assert_eq!(paths2[2], vec![vec![0], vec![0, 0], vec![0, 0, 0]]);
}

#[test]
fn fern_preset_first_round() {
    let mut ls = LSystem::new(1, &chars("X=>F-[[X]+X]+F[+FX]-X, F=>FF"), &chars("X")).unwrap();
    ls.fill_string();
    assert_eq!(string_of(ls.derived_string()), "F-[[X]+X]+F[+FX]-X");
    ls.fill_vertices().unwrap();
    // Three `]` in the derived string: four polylines.
    assert_eq!(ls.vertices.len(), 4);
}
