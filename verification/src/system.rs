//! The grammar: parsing a rule string, and the L-system type that ties
//! rewriting and interpretation together.
//!
//! A rule string is a comma-separated list of clauses, each of the shape
//! `<symbol>=><replacement>`.  A clause is trimmed, its arrow tokens are
//! removed, its first character is the rule's left-hand symbol and the
//! rest is the replacement string.  A clause left empty by this is
//! malformed; so is a rule list with more rules than there are reserved
//! placeholders, or one that defines the same symbol twice.  A grammar
//! whose symbols stray into the reserved placeholder range is rejected, so
//! a placeholder can never collide with a real symbol.

use vstd::prelude::*;

use crate::rewrite::all_clean;
use crate::rewrite::clean;
use crate::rewrite::expand;
use crate::rewrite::expand_rounds;
use crate::rewrite::is_reserved;
use crate::rewrite::views_of;
use crate::rewrite::MAX_RULES;
use crate::turtle::interp;
use crate::turtle::interpret;
use crate::turtle::paths_view;
use crate::turtle::Polyline;
use crate::LsError;

verus! {

/// The whitespace trimmed from a clause.
pub open spec fn is_space(c: char) -> bool {
    c == ' ' || c == '\t' || c == '\n' || c == '\r'
}

/// `s` split at every comma, with an accumulator for the clause being
/// read.
pub open spec fn split_acc(s: Seq<char>, cur: Seq<char>) -> Seq<Seq<char>>
    decreases s.len(),
{
    if s.len() == 0 {
        seq![cur]
    } else if s[0] == ',' {
        seq![cur] + split_acc(s.skip(1), Seq::empty())
    } else {
        split_acc(s.skip(1), cur.push(s[0]))
    }
}

/// The comma-separated clauses of `s`; an empty `s` yields one empty
/// clause.
pub open spec fn split_clauses(s: Seq<char>) -> Seq<Seq<char>> {
    split_acc(s, Seq::empty())
}

/// `s` without its leading whitespace.
pub open spec fn trim_front(s: Seq<char>) -> Seq<char>
    decreases s.len(),
{
    if s.len() > 0 && is_space(s[0]) {
        trim_front(s.skip(1))
    } else {
        s
    }
}

/// `s` without its trailing whitespace.
pub open spec fn trim_back(s: Seq<char>) -> Seq<char>
    decreases s.len(),
{
    if s.len() > 0 && is_space(s.last()) {
        trim_back(s.drop_last())
    } else {
        s
    }
}

/// `s` without leading and trailing whitespace.
pub open spec fn trimmed(s: Seq<char>) -> Seq<char> {
    trim_back(trim_front(s))
}

/// `s` with every `=>` token removed, left to right.
pub open spec fn strip_arrows(s: Seq<char>) -> Seq<char>
    decreases s.len(),
{
    if s.len() >= 2 && s[0] == '=' && s[1] == '>' {
        strip_arrows(s.skip(2))
    } else if s.len() == 0 {
        Seq::empty()
    } else {
        seq![s[0]] + strip_arrows(s.skip(1))
    }
}

/// A clause parsed to its left-hand symbol and replacement string; `None`
/// where nothing is left of the clause.
pub open spec fn parse_clause(clause: Seq<char>) -> Option<(char, Seq<char>)> {
    let u = strip_arrows(trimmed(clause));
    if u.len() == 0 {
        None
    } else {
        Some((u[0], u.skip(1)))
    }
}

/// Whether every clause parses.
pub open spec fn clauses_ok(cs: Seq<Seq<char>>) -> bool {
    forall|i: int| 0 <= i < cs.len() ==> (#[trigger] parse_clause(cs[i])) is Some
}

/// The left-hand symbols of the parsed clauses, in clause order.
pub open spec fn parsed_symbols(cs: Seq<Seq<char>>) -> Seq<char> {
    cs.map_values(|c: Seq<char>| parse_clause(c).unwrap().0)
}

/// The replacement strings of the parsed clauses, in clause order.
pub open spec fn parsed_replacements(cs: Seq<Seq<char>>) -> Seq<Seq<char>> {
    cs.map_values(|c: Seq<char>| parse_clause(c).unwrap().1)
}

/// No symbol occurs twice.
pub open spec fn distinct(s: Seq<char>) -> bool {
    forall|i: int, j: int| 0 <= i < j < s.len() ==> s[i] != s[j]
}

/// Whether `c` is whitespace that trimming removes.
pub fn is_space_char(c: char) -> (b: bool)
    ensures
        b == is_space(c),
{
    c == ' ' || c == '\t' || c == '\n' || c == '\r'
}

/// The comma-separated pieces of `s`.
pub fn split_on_commas(s: &Vec<char>) -> (r: Vec<Vec<char>>)
    ensures
        views_of(r@) == split_clauses(s@),
{
    let mut out: Vec<Vec<char>> = Vec::new();
    let mut cur: Vec<char> = Vec::new();
    let mut i: usize = 0;
    proof {
        assert(s@.skip(0) =~= s@);
        assert(views_of(out@) =~= Seq::<Seq<char>>::empty());
        assert(views_of(out@) + split_acc(s@, cur@) =~= split_acc(s@, cur@));
    }
    while i < s.len()
        invariant
            i <= s.len(),
            split_clauses(s@) == views_of(out@) + split_acc(s@.skip(i as int), cur@),
        decreases s.len() - i,
    {
        proof {
            assert(s@.skip(i as int)[0] == s@[i as int]);
            assert(s@.skip(i as int).skip(1) =~= s@.skip(i + 1));
        }
        if s[i] == ',' {
            let ghost old_out = out@;
            let ghost old_cur = cur@;
            out.push(cur);
            cur = Vec::new();
            proof {
                assert(views_of(out@) =~= views_of(old_out).push(old_cur));
                assert(views_of(old_out) + (seq![old_cur] + split_acc(s@.skip(i + 1), cur@))
                    =~= views_of(out@) + split_acc(s@.skip(i + 1), cur@));
            }
        } else {
            cur.push(s[i]);
        }
        i = i + 1;
    }
    proof {
        assert(s@.skip(s@.len() as int) =~= Seq::<char>::empty());
    }
    let ghost old_out = out@;
    let ghost old_cur = cur@;
    out.push(cur);
    proof {
        assert(views_of(out@) =~= views_of(old_out).push(old_cur));
        assert(views_of(old_out) + seq![old_cur] =~= views_of(old_out).push(old_cur));
    }
    out
}

/// `s` without leading and trailing whitespace.
pub fn trim_spaces(s: &Vec<char>) -> (r: Vec<char>)
    ensures
        r@ == trimmed(s@),
{
    let mut lo: usize = 0;
    proof {
        assert(s@.skip(0) =~= s@);
    }
    while lo < s.len() && is_space_char(s[lo])
        invariant
            lo <= s.len(),
            trim_front(s@) == trim_front(s@.skip(lo as int)),
        decreases s.len() - lo,
    {
        proof {
            assert(s@.skip(lo as int)[0] == s@[lo as int]);
            assert(s@.skip(lo as int).skip(1) =~= s@.skip(lo + 1));
        }
        lo = lo + 1;
    }
    proof {
        if lo == s.len() {
            assert(s@.skip(lo as int) =~= Seq::<char>::empty());
        }
        assert(trim_front(s@) == s@.skip(lo as int));
        assert(s@.skip(lo as int) =~= s@.subrange(lo as int, s@.len() as int));
    }
    let mut hi: usize = s.len();
    while hi > lo && is_space_char(s[hi - 1])
        invariant
            lo <= hi <= s.len(),
            trim_back(s@.skip(lo as int)) == trim_back(s@.subrange(lo as int, hi as int)),
        decreases hi,
    {
        proof {
            let piece = s@.subrange(lo as int, hi as int);
            assert(piece.last() == s@[hi - 1]);
            assert(piece.drop_last() =~= s@.subrange(lo as int, hi - 1));
        }
        hi = hi - 1;
    }
    proof {
        if hi == lo {
            assert(s@.subrange(lo as int, hi as int) =~= Seq::<char>::empty());
        }
        assert(trim_back(s@.subrange(lo as int, hi as int)) == s@.subrange(lo as int, hi as int));
    }
    let mut r: Vec<char> = Vec::new();
    let mut j: usize = lo;
    while j < hi
        invariant
            lo <= j <= hi <= s.len(),
            r@ == s@.subrange(lo as int, j as int),
        decreases hi - j,
    {
        r.push(s[j]);
        proof {
            assert(s@.subrange(lo as int, j + 1) =~= s@.subrange(lo as int, j as int).push(
                s@[j as int]));
        }
        j = j + 1;
    }
    r
}

/// `s` with every `=>` token removed.
pub fn strip_arrow_tokens(s: &Vec<char>) -> (r: Vec<char>)
    ensures
        r@ == strip_arrows(s@),
{
    let mut r: Vec<char> = Vec::new();
    let mut i: usize = 0;
    proof {
        assert(s@.skip(0) =~= s@);
        assert(r@ + strip_arrows(s@) =~= strip_arrows(s@));
    }
    while i < s.len()
        invariant
            i <= s.len(),
            strip_arrows(s@) == r@ + strip_arrows(s@.skip(i as int)),
        decreases s.len() - i,
    {
        proof {
            assert(s@.skip(i as int)[0] == s@[i as int]);
            if i + 1 < s.len() {
                assert(s@.skip(i as int)[1] == s@[i + 1]);
            }
            assert(s@.skip(i as int).skip(1) =~= s@.skip(i + 1));
            if i + 1 < s.len() {
                assert(s@.skip(i as int).skip(2) =~= s@.skip(i + 2));
            }
        }
        if i + 1 < s.len() && s[i] == '=' && s[i + 1] == '>' {
            i = i + 2;
        } else {
            let ghost old_r = r@;
            r.push(s[i]);
            proof {
                assert(old_r + (seq![s@[i as int]] + strip_arrows(s@.skip(i + 1))) =~= r@
                    + strip_arrows(s@.skip(i + 1)));
            }
            i = i + 1;
        }
    }
    proof {
        assert(s@.skip(s@.len() as int) =~= Seq::<char>::empty());
        assert(r@ + Seq::<char>::empty() =~= r@);
    }
    r
}

/// The left-hand symbols and replacement strings of a rule string, or
/// `MalformedRule` where some clause parses to nothing.
fn parse_rule_string(rule: &Vec<char>) -> (r: Result<(Vec<char>, Vec<Vec<char>>), LsError>)
    ensures
        match r {
            Ok(p) => clauses_ok(split_clauses(rule@)) && p.0@ == parsed_symbols(
                split_clauses(rule@),
            ) && views_of(p.1@) == parsed_replacements(split_clauses(rule@)),
            Err(e) => e == LsError::MalformedRule && !clauses_ok(split_clauses(rule@)),
        },
{
    let clauses = split_on_commas(rule);
    let ghost cs = split_clauses(rule@);
    let mut symbols: Vec<char> = Vec::new();
    let mut repls: Vec<Vec<char>> = Vec::new();
    let mut j: usize = 0;
    proof {
        assert(symbols@ =~= parsed_symbols(cs).take(0));
        assert(views_of(repls@) =~= parsed_replacements(cs).take(0));
    }
    while j < clauses.len()
        invariant
            j <= clauses.len(),
            cs == split_clauses(rule@),
            views_of(clauses@) == cs,
            clauses@.len() == cs.len(),
            forall|l: int| 0 <= l < j ==> (#[trigger] parse_clause(cs[l])) is Some,
            symbols@ == parsed_symbols(cs).take(j as int),
            views_of(repls@) == parsed_replacements(cs).take(j as int),
        decreases clauses.len() - j,
    {
        proof {
            assert(clauses@[j as int]@ == cs[j as int]);
        }
        let t = trim_spaces(&clauses[j]);
        let u = strip_arrow_tokens(&t);
        proof {
            assert(u@ == strip_arrows(trimmed(cs[j as int])));
        }
        if u.len() == 0 {
            proof {
                assert(parse_clause(cs[j as int]) is None);
                assert(!clauses_ok(cs));
            }
            return Err(LsError::MalformedRule);
        }
        symbols.push(u[0]);
        let mut repl: Vec<char> = Vec::new();
        let mut l: usize = 1;
        while l < u.len()
            invariant
                1 <= l <= u.len(),
                repl@ == u@.subrange(1, l as int),
            decreases u.len() - l,
        {
            repl.push(u[l]);
            proof {
                assert(u@.subrange(1, l + 1) =~= u@.subrange(1, l as int).push(u@[l as int]));
            }
            l = l + 1;
        }
        proof {
            assert(repl@ =~= u@.skip(1));
        }
        let ghost old_repls = repls@;
        repls.push(repl);
        proof {
            assert(parse_clause(cs[j as int]).unwrap().0 == u@[0]);
            assert(parse_clause(cs[j as int]).unwrap().1 == u@.skip(1));
            assert(parsed_symbols(cs)[j as int] == u@[0]);
            assert(parsed_replacements(cs)[j as int] == u@.skip(1));
            assert(symbols@ =~= parsed_symbols(cs).take(j + 1));
            assert(views_of(repls@) =~= views_of(old_repls).push(repl@));
            assert(views_of(repls@) =~= parsed_replacements(cs).take(j + 1));
        }
        j = j + 1;
    }
    proof {
        assert(symbols@ =~= parsed_symbols(cs));
        assert(views_of(repls@) =~= parsed_replacements(cs));
    }
    Ok((symbols, repls))
}

/// Whether no character of `s` occurs twice.
fn all_distinct(s: &Vec<char>) -> (b: bool)
    ensures
        b == distinct(s@),
{
    let mut i: usize = 0;
    while i < s.len()
        invariant
            i <= s.len(),
            forall|a: int, b2: int| 0 <= a < b2 < s@.len() && a < i ==> s@[a] != s@[b2],
        decreases s.len() - i,
    {
        let mut j: usize = i + 1;
        while j < s.len()
            invariant
                i < j <= s.len(),
                i < s.len(),
                forall|l: int| i < l < j ==> s@[i as int] != s@[l],
            decreases s.len() - j,
        {
            if s[i] == s[j] {
                proof {
                    assert(!distinct(s@));
                }
                return false;
            }
            j = j + 1;
        }
        i = i + 1;
    }
    true
}

/// Whether some character of `s` lies in the reserved placeholder range.
fn any_reserved(s: &Vec<char>) -> (b: bool)
    ensures
        b == !clean(s@),
{
    let mut i: usize = 0;
    while i < s.len()
        invariant
            i <= s.len(),
            forall|l: int| 0 <= l < i ==> !is_reserved(#[trigger] s@[l]),
        decreases s.len() - i,
    {
        let c = s[i];
        if c == '\u{e000}' || c == '\u{e001}' || c == '\u{e002}' || c == '\u{e003}' {
            proof {
                assert(is_reserved(s@[i as int]));
            }
            return true;
        }
        i = i + 1;
    }
    false
}

/// Whether some character of some string in `rs` is reserved.
fn any_reserved_inside(rs: &Vec<Vec<char>>) -> (b: bool)
    ensures
        b == !all_clean(views_of(rs@)),
{
    let mut i: usize = 0;
    while i < rs.len()
        invariant
            i <= rs.len(),
            forall|l: int| 0 <= l < i ==> clean(#[trigger] views_of(rs@)[l]),
        decreases rs.len() - i,
    {
        if any_reserved(&rs[i]) {
            proof {
                assert(!clean(views_of(rs@)[i as int]));
            }
            return true;
        }
        i = i + 1;
    }
    false
}

/// An L-system: a parsed grammar, its derived string, and the polylines
/// interpreted from it.
#[derive(Clone, Debug)]
pub struct LSystem {
    /// How many rewrite rounds `fill_string` applies.
    pub n_iterations: usize,
    /// The interpreted polylines, filled by `fill_vertices`.
    pub vertices: Vec<Polyline>,
    /// The starting string.
    pub seed: Vec<char>,
    /// The rule string as given, kept for display.
    pub rulestring: Vec<char>,
    /// The rules' left-hand symbols, in declaration order.
    pub symbols: Vec<char>,
    /// The rules' replacement strings, in the same order.
    pub rules: Vec<Vec<char>>,
    /// The derived string: the seed until `fill_string` expands it.
    pub current_string: Vec<char>,
}

impl LSystem {
    /// The grammar invariant that construction establishes: as many
    /// symbols as replacements, within the placeholder budget, each
    /// defined once, and no reserved character anywhere.
    pub open spec fn wf(&self) -> bool {
        &&& self.symbols@.len() == self.rules@.len()
        &&& self.symbols@.len() <= MAX_RULES
        &&& distinct(self.symbols@)
        &&& clean(self.symbols@)
        &&& all_clean(views_of(self.rules@))
        &&& clean(self.seed@)
        &&& clean(self.current_string@)
    }

    /// Parses `rule` into a grammar over the non-empty `seed`, to be
    /// expanded `iterations` rounds.
    ///
    /// Construction fails with `MalformedRule` where a clause is empty
    /// after trimming and arrow removal, where there are more rules than
    /// reserved placeholders, or where two rules share a left-hand
    /// symbol; it fails with `PlaceholderCollision` where a symbol of the
    /// grammar lies in the reserved placeholder range.
    pub fn new(iterations: usize, rule: &Vec<char>, seed: &Vec<char>) -> (r: Result<
        LSystem,
        LsError,
    >)
        requires
            seed@.len() > 0,
        ensures
            match r {
                Ok(ls) => {
                    let cs = split_clauses(rule@);
                    &&& clauses_ok(cs)
                    &&& ls.symbols@ == parsed_symbols(cs)
                    &&& views_of(ls.rules@) == parsed_replacements(cs)
                    &&& ls.symbols@.len() <= MAX_RULES
                    &&& distinct(ls.symbols@)
                    &&& clean(ls.symbols@)
                    &&& all_clean(views_of(ls.rules@))
                    &&& clean(seed@)
                    &&& ls.seed@ == seed@
                    &&& ls.current_string@ == seed@
                    &&& ls.rulestring@ == rule@
                    &&& ls.n_iterations == iterations
                    &&& ls.vertices@.len() == 0
                    &&& ls.wf()
                },
                Err(e) => {
                    let cs = split_clauses(rule@);
                    if !clauses_ok(cs) {
                        e == LsError::MalformedRule
                    } else if parsed_symbols(cs).len() > MAX_RULES {
                        e == LsError::MalformedRule
                    } else if !distinct(parsed_symbols(cs)) {
                        e == LsError::MalformedRule
                    } else {
                        e == LsError::PlaceholderCollision && !(clean(parsed_symbols(cs))
                            && all_clean(parsed_replacements(cs)) && clean(seed@))
                    }
                },
            },
    {
        let parsed = match parse_rule_string(rule) {
            Ok(p) => p,
            Err(e) => {
                return Err(e);
            },
        };
        let symbols = parsed.0;
        let repls = parsed.1;
        if symbols.len() > MAX_RULES {
            return Err(LsError::MalformedRule);
        }
        if !all_distinct(&symbols) {
            return Err(LsError::MalformedRule);
        }
        if any_reserved(&symbols) || any_reserved_inside(&repls) || any_reserved(seed) {
            return Err(LsError::PlaceholderCollision);
        }
        Ok(
            LSystem {
                n_iterations: iterations,
                vertices: Vec::new(),
                seed: crate::rewrite::copy_chars(seed),
                rulestring: crate::rewrite::copy_chars(rule),
                symbols,
                rules: repls,
                current_string: crate::rewrite::copy_chars(seed),
            },
        )
    }

    /// Expands the derived string in place: `n_iterations` rounds of
    /// simultaneous rule application, starting from its current state
    /// (the seed, right after construction).
    pub fn fill_string(&mut self)
        requires
            old(self).wf(),
        ensures
            final(self).current_string@ == expand_rounds(
                old(self).current_string@,
                old(self).symbols@,
                views_of(old(self).rules@),
                old(self).n_iterations as nat,
            ),
            final(self).symbols@ == old(self).symbols@,
            final(self).rules@ == old(self).rules@,
            final(self).seed@ == old(self).seed@,
            final(self).rulestring@ == old(self).rulestring@,
            final(self).vertices@ == old(self).vertices@,
            final(self).n_iterations == old(self).n_iterations,
            final(self).wf(),
    {
        let expanded = expand(&self.current_string, &self.symbols, &self.rules, self.n_iterations);
        proof {
            crate::rewrite::lemma_expand_rounds_clean(
                self.current_string@,
                self.symbols@,
                views_of(self.rules@),
                self.n_iterations as nat,
            );
        }
        self.current_string = expanded;
    }

    /// Interprets the derived string and appends its polylines to
    /// `vertices`; on an unmatched `]` the system is left unchanged and
    /// the offending index is reported.
    pub fn fill_vertices(&mut self) -> (r: Result<(), LsError>)
        ensures
            match interp(old(self).current_string@) {
                Ok(paths) => {
                    &&& r is Ok
                    &&& paths_view(final(self).vertices@) == paths_view(old(self).vertices@)
                        + paths
                    &&& final(self).current_string@ == old(self).current_string@
                    &&& final(self).symbols@ == old(self).symbols@
                    &&& final(self).rules@ == old(self).rules@
                    &&& final(self).seed@ == old(self).seed@
                    &&& final(self).rulestring@ == old(self).rulestring@
                    &&& final(self).n_iterations == old(self).n_iterations
                },
                Err(i) => {
                    &&& (r matches Err(e) && e == LsError::UnbalancedBracket(i as usize))
                    &&& *final(self) == *old(self)
                },
            },
    {
        match interpret(&self.current_string) {
            Ok(mut v) => {
                let ghost old_vertices = self.vertices@;
                let ghost fresh = v@;
                self.vertices.append(&mut v);
                proof {
                    assert(paths_view(old_vertices + fresh) =~= paths_view(old_vertices)
                        + paths_view(fresh));
                }
                Ok(())
            },
            Err(e) => Err(e),
        }
    }

    /// The derived string in its current state: the seed right after
    /// construction, the expanded string after `fill_string`.
    pub fn derived_string(&self) -> (r: &Vec<char>)
        ensures
            r@ == self.current_string@,
    {
        &self.current_string
    }

    /// How many rewrite rounds this system applies.
    pub fn iteration_count(&self) -> (r: usize)
        ensures
            r == self.n_iterations,
    {
        self.n_iterations
    }
}

} // verus!
