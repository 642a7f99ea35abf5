//! Parallel rewriting of symbol strings.
//!
//! One round of expansion must substitute every rule simultaneously: a
//! symbol produced by one rule's replacement may not be rewritten again by
//! another rule in the same round.  The executable code realises this with
//! the classical two-phase placeholder technique (first map every left-hand
//! symbol to a reserved placeholder, then map every placeholder to its
//! replacement); the specification states the direct, per-symbol parallel
//! substitution, and the two are proved equal.

use vstd::prelude::*;

verus! {

/// How many distinct rules a grammar may hold: one per reserved placeholder.
pub const MAX_RULES: usize = 4;

/// The reserved placeholder for the rule at index `i` (meaningful for
/// `0 <= i < MAX_RULES`).  The four characters come from a private use
/// area, so ordinary grammars never contain them.
pub open spec fn placeholder_char(i: int) -> char {
    if i == 0 {
        '\u{e000}'
    } else if i == 1 {
        '\u{e001}'
    } else if i == 2 {
        '\u{e002}'
    } else {
        '\u{e003}'
    }
}

/// Whether `c` is one of the reserved placeholder characters.
pub open spec fn is_reserved(c: char) -> bool {
    c == '\u{e000}' || c == '\u{e001}' || c == '\u{e002}' || c == '\u{e003}'
}

/// A string free of reserved placeholder characters.
pub open spec fn clean(s: Seq<char>) -> bool {
    forall|i: int| 0 <= i < s.len() ==> !is_reserved(#[trigger] s[i])
}

/// Every replacement string in `repls` is free of reserved characters.
pub open spec fn all_clean(repls: Seq<Seq<char>>) -> bool {
    forall|i: int| 0 <= i < repls.len() ==> clean(#[trigger] repls[i])
}

/// The first rule index at or after `from` whose left-hand symbol is `c`.
pub open spec fn find_rule(syms: Seq<char>, from: int, c: char) -> Option<int>
    decreases syms.len() - from,
{
    if from < 0 || from >= syms.len() {
        None
    } else if syms[from] == c {
        Some(from)
    } else {
        find_rule(syms, from + 1, c)
    }
}

/// What one round of parallel substitution makes of the single symbol `c`.
pub open spec fn subst_symbol(c: char, syms: Seq<char>, repls: Seq<Seq<char>>) -> Seq<char> {
    match find_rule(syms, 0, c) {
        Some(i) => repls[i],
        None => seq![c],
    }
}

/// One round of parallel substitution over a whole string.
pub open spec fn subst_round(s: Seq<char>, syms: Seq<char>, repls: Seq<Seq<char>>) -> Seq<char>
    decreases s.len(),
{
    if s.len() == 0 {
        Seq::empty()
    } else {
        subst_symbol(s[0], syms, repls) + subst_round(s.skip(1), syms, repls)
    }
}

/// The derived string after `n` rounds of parallel substitution.
pub open spec fn expand_rounds(s: Seq<char>, syms: Seq<char>, repls: Seq<Seq<char>>, n: nat) -> Seq<char>
    decreases n,
{
    if n == 0 {
        s
    } else {
        expand_rounds(subst_round(s, syms, repls), syms, repls, (n - 1) as nat)
    }
}

/// `s` with every occurrence of the character `from` replaced by `to`.
pub open spec fn replace_all(s: Seq<char>, from: char, to: Seq<char>) -> Seq<char>
    decreases s.len(),
{
    if s.len() == 0 {
        Seq::empty()
    } else if s[0] == from {
        to + replace_all(s.skip(1), from, to)
    } else {
        seq![s[0]] + replace_all(s.skip(1), from, to)
    }
}

/// Replacement distributes over concatenation.
pub proof fn lemma_replace_all_append(a: Seq<char>, b: Seq<char>, from: char, to: Seq<char>)
    ensures
        replace_all(a + b, from, to) == replace_all(a, from, to) + replace_all(b, from, to),
    decreases a.len(),
{
    if a.len() == 0 {
        assert(a + b =~= b);
        assert(replace_all(a, from, to) + replace_all(b, from, to) =~= replace_all(b, from, to));
    } else {
        lemma_replace_all_append(a.skip(1), b, from, to);
        assert((a + b).skip(1) =~= a.skip(1) + b);
        assert((a + b)[0] == a[0]);
        if a[0] == from {
            assert(replace_all(a + b, from, to) =~= to + (replace_all(a.skip(1), from, to)
                + replace_all(b, from, to)));
            assert(to + (replace_all(a.skip(1), from, to) + replace_all(b, from, to)) =~= (to
                + replace_all(a.skip(1), from, to)) + replace_all(b, from, to));
        } else {
            assert(replace_all(a + b, from, to) =~= seq![a[0]] + (replace_all(a.skip(1), from, to)
                + replace_all(b, from, to)));
            assert(seq![a[0]] + (replace_all(a.skip(1), from, to) + replace_all(b, from, to)) =~= (
            seq![a[0]] + replace_all(a.skip(1), from, to)) + replace_all(b, from, to));
        }
    }
}

/// What replacement makes of a one-character string.
pub proof fn lemma_replace_all_single(c: char, from: char, to: Seq<char>)
    ensures
        replace_all(seq![c], from, to) == if c == from {
            to
        } else {
            seq![c]
        },
{
    assert(seq![c].skip(1) =~= Seq::<char>::empty());
    assert(replace_all(Seq::<char>::empty(), from, to) =~= Seq::<char>::empty());
    if c == from {
        assert(replace_all(seq![c], from, to) =~= to);
    } else {
        assert(replace_all(seq![c], from, to) =~= seq![c]);
    }
}

/// Phase one of a round, from rule index `j` on: every left-hand symbol
/// becomes its rule's placeholder, in rule order.
pub open spec fn phase_mark(s: Seq<char>, syms: Seq<char>, j: int) -> Seq<char>
    decreases syms.len() - j,
{
    if j < 0 || j >= syms.len() {
        s
    } else {
        phase_mark(replace_all(s, syms[j], seq![placeholder_char(j)]), syms, j + 1)
    }
}

/// Phase two of a round, from rule index `j` on: every placeholder becomes
/// its rule's replacement string, in rule order.
pub open spec fn phase_fill(s: Seq<char>, repls: Seq<Seq<char>>, j: int) -> Seq<char>
    decreases repls.len() - j,
{
    if j < 0 || j >= repls.len() {
        s
    } else {
        phase_fill(replace_all(s, placeholder_char(j), repls[j]), repls, j + 1)
    }
}

/// Phase one distributes over concatenation.
pub proof fn lemma_phase_mark_append(a: Seq<char>, b: Seq<char>, syms: Seq<char>, j: int)
    ensures
        phase_mark(a + b, syms, j) == phase_mark(a, syms, j) + phase_mark(b, syms, j),
    decreases syms.len() - j,
{
    if 0 <= j < syms.len() {
        lemma_replace_all_append(a, b, syms[j], seq![placeholder_char(j)]);
        lemma_phase_mark_append(
            replace_all(a, syms[j], seq![placeholder_char(j)]),
            replace_all(b, syms[j], seq![placeholder_char(j)]),
            syms,
            j + 1,
        );
    }
}

/// Phase two distributes over concatenation.
pub proof fn lemma_phase_fill_append(a: Seq<char>, b: Seq<char>, repls: Seq<Seq<char>>, j: int)
    ensures
        phase_fill(a + b, repls, j) == phase_fill(a, repls, j) + phase_fill(b, repls, j),
    decreases repls.len() - j,
{
    if 0 <= j < repls.len() {
        lemma_replace_all_append(a, b, placeholder_char(j), repls[j]);
        lemma_phase_fill_append(
            replace_all(a, placeholder_char(j), repls[j]),
            replace_all(b, placeholder_char(j), repls[j]),
            repls,
            j + 1,
        );
    }
}

/// Replacing a character that does not occur leaves the string unchanged.
pub proof fn lemma_replace_all_absent(s: Seq<char>, from: char, to: Seq<char>)
    requires
        forall|i: int| 0 <= i < s.len() ==> s[i] != from,
    ensures
        replace_all(s, from, to) == s,
    decreases s.len(),
{
    if s.len() > 0 {
        lemma_replace_all_absent(s.skip(1), from, to);
        assert(replace_all(s, from, to) =~= seq![s[0]] + s.skip(1));
        assert(seq![s[0]] + s.skip(1) =~= s);
    }
}

/// Phase two leaves a string without reserved characters unchanged.
pub proof fn lemma_phase_fill_clean(s: Seq<char>, repls: Seq<Seq<char>>, j: int)
    requires
        clean(s),
    ensures
        phase_fill(s, repls, j) == s,
    decreases repls.len() - j,
{
    if 0 <= j < repls.len() {
        lemma_replace_all_absent(s, placeholder_char(j), repls[j]);
        lemma_phase_fill_clean(s, repls, j + 1);
    }
}

/// Phase one leaves a lone placeholder alone when no left-hand symbol is
/// reserved.
pub proof fn lemma_phase_mark_reserved(d: char, syms: Seq<char>, j: int)
    requires
        is_reserved(d),
        clean(syms),
    ensures
        phase_mark(seq![d], syms, j) == seq![d],
    decreases syms.len() - j,
{
    if 0 <= j < syms.len() {
        lemma_replace_all_single(d, syms[j], seq![placeholder_char(j)]);
        lemma_phase_mark_reserved(d, syms, j + 1);
    }
}

/// Where `find_rule` looks and what it guarantees.
pub proof fn lemma_find_rule_props(syms: Seq<char>, from: int, c: char)
    requires
        0 <= from,
    ensures
        match find_rule(syms, from, c) {
            Some(i) => from <= i < syms.len() && syms[i] == c,
            None => forall|l: int| from <= l < syms.len() ==> syms[l] != c,
        },
    decreases syms.len() - from,
{
    if from < syms.len() && syms[from] != c {
        lemma_find_rule_props(syms, from + 1, c);
    }
}

/// Phase one turns a single ordinary symbol into its rule's placeholder
/// (if a rule matches) and leaves it otherwise.
pub proof fn lemma_phase_mark_single(c: char, syms: Seq<char>, j: int)
    requires
        !is_reserved(c),
        clean(syms),
        0 <= j,
    ensures
        phase_mark(seq![c], syms, j) == match find_rule(syms, j, c) {
            Some(i) => seq![placeholder_char(i)],
            None => seq![c],
        },
    decreases syms.len() - j,
{
    if j < syms.len() {
        lemma_replace_all_single(c, syms[j], seq![placeholder_char(j)]);
        if c == syms[j] {
            lemma_phase_mark_reserved(placeholder_char(j), syms, j + 1);
        } else {
            lemma_phase_mark_single(c, syms, j + 1);
        }
    }
}

/// Phase two turns a lone placeholder into its rule's replacement.
pub proof fn lemma_phase_fill_placeholder(i: int, repls: Seq<Seq<char>>, j: int)
    requires
        0 <= j <= i < repls.len(),
        repls.len() <= MAX_RULES as int,
        all_clean(repls),
    ensures
        phase_fill(seq![placeholder_char(i)], repls, j) == repls[i],
    decreases repls.len() - j,
{
    lemma_replace_all_single(placeholder_char(i), placeholder_char(j), repls[j]);
    if j == i {
        lemma_phase_fill_clean(repls[i], repls, j + 1);
    } else {
        lemma_phase_fill_placeholder(i, repls, j + 1);
    }
}

/// Both phases together act on a single ordinary symbol exactly as parallel
/// substitution does.
pub proof fn lemma_round_single(c: char, syms: Seq<char>, repls: Seq<Seq<char>>)
    requires
        !is_reserved(c),
        clean(syms),
        all_clean(repls),
        syms.len() == repls.len(),
        syms.len() <= MAX_RULES as int,
    ensures
        phase_fill(phase_mark(seq![c], syms, 0), repls, 0) == subst_symbol(c, syms, repls),
{
    lemma_phase_mark_single(c, syms, 0);
    lemma_find_rule_props(syms, 0, c);
    match find_rule(syms, 0, c) {
        Some(i) => {
            lemma_phase_fill_placeholder(i, repls, 0);
        },
        None => {
            lemma_phase_fill_clean(seq![c], repls, 0);
        },
    }
}

/// The two-phase placeholder technique equals one round of parallel
/// substitution on any string free of reserved characters.
pub proof fn lemma_round_equiv(s: Seq<char>, syms: Seq<char>, repls: Seq<Seq<char>>)
    requires
        clean(s),
        clean(syms),
        all_clean(repls),
        syms.len() == repls.len(),
        syms.len() <= MAX_RULES as int,
    ensures
        phase_fill(phase_mark(s, syms, 0), repls, 0) == subst_round(s, syms, repls),
    decreases s.len(),
{
    if s.len() == 0 {
        lemma_phase_mark_is_identity_on_empty(s, syms, 0);
        lemma_phase_fill_clean(s, repls, 0);
    } else {
        let head = seq![s[0]];
        let tail = s.skip(1);
        assert(s =~= head + tail);
        lemma_phase_mark_append(head, tail, syms, 0);
        lemma_phase_fill_append(phase_mark(head, syms, 0), phase_mark(tail, syms, 0), repls, 0);
        lemma_round_single(s[0], syms, repls);
        assert forall|i: int| 0 <= i < tail.len() implies !is_reserved(#[trigger] tail[i]) by {
            assert(tail[i] == s[i + 1]);
        }
        lemma_round_equiv(tail, syms, repls);
    }
}

/// Phase one does nothing to the empty string.
pub proof fn lemma_phase_mark_is_identity_on_empty(s: Seq<char>, syms: Seq<char>, j: int)
    requires
        s.len() == 0,
    ensures
        phase_mark(s, syms, j) == s,
    decreases syms.len() - j,
{
    if 0 <= j < syms.len() {
        lemma_phase_mark_is_identity_on_empty(
            replace_all(s, syms[j], seq![placeholder_char(j)]),
            syms,
            j + 1,
        );
    }
}

/// One round of parallel substitution introduces no reserved characters.
pub proof fn lemma_subst_round_clean(s: Seq<char>, syms: Seq<char>, repls: Seq<Seq<char>>)
    requires
        clean(s),
        all_clean(repls),
        syms.len() == repls.len(),
    ensures
        clean(subst_round(s, syms, repls)),
    decreases s.len(),
{
    if s.len() > 0 {
        lemma_find_rule_props(syms, 0, s[0]);
        lemma_subst_round_clean(s.skip(1), syms, repls);
        let r = subst_round(s, syms, repls);
        let h = subst_symbol(s[0], syms, repls);
        let t = subst_round(s.skip(1), syms, repls);
        match find_rule(syms, 0, s[0]) {
            Some(i) => {
                assert(clean(repls[i]));
            },
            None => {
                assert(!is_reserved(s[0]));
                assert forall|l: int| 0 <= l < h.len() implies !is_reserved(#[trigger] h[l]) by {
                    assert(h[l] == s[0]);
                }
            },
        }
        assert(clean(h));
        assert forall|i: int| 0 <= i < r.len() implies !is_reserved(#[trigger] r[i]) by {
            if i < h.len() {
                assert(r[i] == h[i]);
            } else {
                assert(r[i] == t[i - h.len()]);
            }
        }
    }
}

/// Peeling a round off the back instead of the front.
pub proof fn lemma_expand_rounds_snoc(s: Seq<char>, syms: Seq<char>, repls: Seq<Seq<char>>, n: nat)
    ensures
        expand_rounds(s, syms, repls, n + 1) == subst_round(
            expand_rounds(s, syms, repls, n),
            syms,
            repls,
        ),
    decreases n,
{
    if n == 0 {
        assert(expand_rounds(subst_round(s, syms, repls), syms, repls, 0) == subst_round(
            s,
            syms,
            repls,
        ));
    } else {
        lemma_expand_rounds_snoc(subst_round(s, syms, repls), syms, repls, (n - 1) as nat);
        assert(expand_rounds(s, syms, repls, n) == expand_rounds(
            subst_round(s, syms, repls),
            syms,
            repls,
            (n - 1) as nat,
        ));
    }
}

/// `s` with every occurrence of `from` replaced by the string `to`.
pub fn replace_occurrences(s: &Vec<char>, from: char, to: &Vec<char>) -> (r: Vec<char>)
    ensures
        r@ == replace_all(s@, from, to@),
{
    let mut r: Vec<char> = Vec::new();
    let mut i: usize = 0;
    while i < s.len()
        invariant
            i <= s.len(),
            r@ == replace_all(s@.take(i as int), from, to@),
        decreases s.len() - i,
    {
        proof {
            lemma_replace_all_append(s@.take(i as int), seq![s@[i as int]], from, to@);
            assert(s@.take(i + 1) =~= s@.take(i as int) + seq![s@[i as int]]);
            lemma_replace_all_single(s@[i as int], from, to@);
        }
        if s[i] == from {
            let mut j: usize = 0;
            let ghost r_before: Seq<char> = r@;
            while j < to.len()
                invariant
                    j <= to.len(),
                    r@ == r_before + to@.take(j as int),
                decreases to.len() - j,
            {
                r.push(to[j]);
                proof {
                    assert(r_before + to@.take(j + 1) =~= (r_before + to@.take(j as int)).push(
                        to@[j as int]));
                }
                j = j + 1;
            }
            proof {
                assert(to@.take(to@.len() as int) =~= to@);
            }
        } else {
            r.push(s[i]);
        }
        i = i + 1;
    }
    proof {
        assert(s@.take(s@.len() as int) =~= s@);
    }
    r
}

/// The views of a vector of replacement strings.
pub open spec fn views_of(rs: Seq<Vec<char>>) -> Seq<Seq<char>> {
    rs.map_values(|r: Vec<char>| r@)
}

/// An exact copy of a character vector.
pub fn copy_chars(s: &Vec<char>) -> (r: Vec<char>)
    ensures
        r@ == s@,
{
    let mut r: Vec<char> = Vec::new();
    let mut i: usize = 0;
    while i < s.len()
        invariant
            i <= s.len(),
            r@ == s@.take(i as int),
        decreases s.len() - i,
    {
        r.push(s[i]);
        proof {
            assert(s@.take(i + 1) =~= s@.take(i as int).push(s@[i as int]));
        }
        i = i + 1;
    }
    proof {
        assert(s@.take(s@.len() as int) =~= s@);
    }
    r
}

/// The reserved placeholder for the rule at index `i`.
pub fn placeholder(i: usize) -> (c: char)
    ensures
        c == placeholder_char(i as int),
{
    if i == 0 {
        '\u{e000}'
    } else if i == 1 {
        '\u{e001}'
    } else if i == 2 {
        '\u{e002}'
    } else {
        '\u{e003}'
    }
}

/// `start` after `iterations` rounds of simultaneous rule application.
///
/// Each round replaces, in one parallel step, every symbol that is some
/// rule's left-hand side by that rule's replacement string; symbols created
/// by a replacement are only rewritten in later rounds.  The body uses the
/// two-phase placeholder technique; the contract states the parallel
/// semantics it is proved to implement.
pub fn expand(
    start: &Vec<char>,
    symbols: &Vec<char>,
    replacements: &Vec<Vec<char>>,
    iterations: usize,
) -> (r: Vec<char>)
    requires
        clean(start@),
        clean(symbols@),
        all_clean(views_of(replacements@)),
        symbols@.len() == replacements@.len(),
        symbols@.len() <= MAX_RULES,
    ensures
        r@ == expand_rounds(start@, symbols@, views_of(replacements@), iterations as nat),
{
    let ghost syms = symbols@;
    let ghost repls = views_of(replacements@);
    let mut cur: Vec<char> = copy_chars(start);
    let mut round: usize = 0;
    while round < iterations
        invariant
            round <= iterations,
            clean(cur@),
            cur@ == expand_rounds(start@, syms, repls, round as nat),
            syms == symbols@,
            repls == views_of(replacements@),
            clean(syms),
            all_clean(repls),
            syms.len() == repls.len(),
            syms.len() <= MAX_RULES as int,
        decreases iterations - round,
    {
        let ghost before = cur@;
        let mut i: usize = 0;
        while i < symbols.len()
            invariant
                i <= symbols.len(),
                syms == symbols@,
                phase_mark(before, syms, 0) == phase_mark(cur@, syms, i as int),
            decreases symbols.len() - i,
        {
            let mut marker: Vec<char> = Vec::new();
            marker.push(placeholder(i));
            proof {
                assert(marker@ =~= seq![placeholder_char(i as int)]);
            }
            cur = replace_occurrences(&cur, symbols[i], &marker);
            i = i + 1;
        }
        proof {
            assert(phase_mark(cur@, syms, symbols@.len() as int) == cur@);
        }
        let ghost marked = cur@;
        let mut i: usize = 0;
        while i < replacements.len()
            invariant
                i <= replacements.len(),
                repls == views_of(replacements@),
                phase_fill(marked, repls, 0) == phase_fill(cur@, repls, i as int),
            decreases replacements.len() - i,
        {
            cur = replace_occurrences(&cur, placeholder(i), &replacements[i]);
            i = i + 1;
        }
        proof {
            assert(phase_fill(cur@, repls, replacements@.len() as int) == cur@);
            lemma_round_equiv(before, syms, repls);
            lemma_subst_round_clean(before, syms, repls);
            lemma_expand_rounds_snoc(start@, syms, repls, round as nat);
        }
        round = round + 1;
    }
    cur
}

/// Expansion introduces no reserved characters.
pub proof fn lemma_expand_rounds_clean(
    s: Seq<char>,
    syms: Seq<char>,
    repls: Seq<Seq<char>>,
    n: nat,
)
    requires
        clean(s),
        all_clean(repls),
        syms.len() == repls.len(),
    ensures
        clean(expand_rounds(s, syms, repls, n)),
    decreases n,
{
    if n > 0 {
        lemma_subst_round_clean(s, syms, repls);
        lemma_expand_rounds_clean(subst_round(s, syms, repls), syms, repls, (n - 1) as nat);
    }
}

/// Zero iterations leave the starting string unchanged.
pub proof fn lemma_expand_zero_rounds(s: Seq<char>, syms: Seq<char>, repls: Seq<Seq<char>>)
    ensures
        expand_rounds(s, syms, repls, 0) == s,
{
}

/// Expansion is deterministic: any two derived strings of the same grammar
/// and iteration count are equal, character for character.
pub proof fn lemma_expand_deterministic(
    r1: Seq<char>,
    r2: Seq<char>,
    s: Seq<char>,
    syms: Seq<char>,
    repls: Seq<Seq<char>>,
    n: nat,
)
    requires
        r1 == expand_rounds(s, syms, repls, n),
        r2 == expand_rounds(s, syms, repls, n),
    ensures
        r1 == r2,
{
}

} // verus!
