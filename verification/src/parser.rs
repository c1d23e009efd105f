use vstd::prelude::*;

use crate::ast::RegexAst;

verus! {

/// The ways a pattern can fail to parse. Every malformed pattern maps to
/// exactly one of the three.
#[derive(Debug, Clone, PartialEq)]
pub enum ParseError {
    /// Input ended where the grammar required more of it.
    UnexpectedEnd,
    /// A metacharacter appeared where an atom was required.
    UnexpectedChar(char),
    /// A `(` group was never closed by a matching `)`.
    UnmatchedParen,
}

/// The metacharacters of the grammar. `/` (the escape lead) and `.` are
/// not among them: where an atom is expected they have their own readings.
pub open spec fn is_meta_spec(c: char) -> bool {
    c == '*' || c == '(' || c == ')' || c == '|' || c == '+' || c == '?'
}

// ---------------------------------------------------------------------
// The grammar, as recursive functions over the character sequence.
//
// Each function takes the position it starts reading at and yields the
// node it produced together with the position just past what it consumed.
// Precedence, low to high: alternation, concatenation, postfix
// quantifiers, atom.
//
// A successful sub-parse always moves the position strictly forward and
// never past the end; the arms below that answer `UnexpectedEnd` on a
// position that failed to advance are therefore never taken, and only
// make the `decreases` clauses provable.
// ---------------------------------------------------------------------

/// Alternation level: one concatenation, then `|`-separated further
/// concatenations, folded to the left into `Alternate` nodes.
pub open spec fn sp_alternation(s: Seq<char>, i: int) -> Result<(RegexAst, int), ParseError>
    decreases s.len() - i, 6int,
{
    match sp_concat(s, i) {
        Err(e) => Err(e),
        Ok((left, j)) => if j <= i || s.len() < j {
            Err(ParseError::UnexpectedEnd)
        } else {
            sp_alternation_more(s, j, left)
        },
    }
}

/// The `|`-separated tail of an alternation, folding onto `acc`.
pub open spec fn sp_alternation_more(s: Seq<char>, i: int, acc: RegexAst) -> Result<
    (RegexAst, int),
    ParseError,
>
    decreases s.len() - i, 7int,
{
    if 0 <= i < s.len() && s[i] == '|' {
        match sp_concat(s, i + 1) {
            Err(e) => Err(e),
            Ok((right, j)) => if j <= i || s.len() < j {
                Err(ParseError::UnexpectedEnd)
            } else {
                sp_alternation_more(
                    s,
                    j,
                    RegexAst::Alternate(Box::new(acc), Box::new(right)),
                )
            },
        }
    } else {
        Ok((acc, i))
    }
}

/// True at a position where a concatenation can consume no further part:
/// end of input, `)` or `|`.
pub open spec fn concat_boundary(s: Seq<char>, i: int) -> bool {
    i >= s.len() || s[i] == ')' || s[i] == '|'
}

/// Concatenation level: one or more quantified atoms, folded to the left
/// into `Concat` nodes. Zero parts is an `UnexpectedEnd` error.
pub open spec fn sp_concat(s: Seq<char>, i: int) -> Result<(RegexAst, int), ParseError>
    decreases s.len() - i, 5int,
{
    if concat_boundary(s, i) {
        Err(ParseError::UnexpectedEnd)
    } else {
        match sp_quantified(s, i) {
            Err(e) => Err(e),
            Ok((first, j)) => if j <= i || s.len() < j {
                Err(ParseError::UnexpectedEnd)
            } else {
                sp_concat_more(s, j, first)
            },
        }
    }
}

/// The tail of a concatenation, folding further parts onto `acc`.
pub open spec fn sp_concat_more(s: Seq<char>, i: int, acc: RegexAst) -> Result<
    (RegexAst, int),
    ParseError,
>
    decreases s.len() - i, 5int,
{
    if concat_boundary(s, i) {
        Ok((acc, i))
    } else {
        match sp_quantified(s, i) {
            Err(e) => Err(e),
            Ok((part, j)) => if j <= i || s.len() < j {
                Err(ParseError::UnexpectedEnd)
            } else {
                sp_concat_more(s, j, RegexAst::Concat(Box::new(acc), Box::new(part)))
            },
        }
    }
}

/// Quantifier level: one atom, then any run of postfix quantifiers in the
/// scan order `*`, `?`, `+`, each wrapping the node built so far.
pub open spec fn sp_quantified(s: Seq<char>, i: int) -> Result<(RegexAst, int), ParseError>
    decreases s.len() - i, 4int,
{
    match sp_atom(s, i) {
        Err(e) => Err(e),
        Ok((a, j)) => if j < i || s.len() < j {
            Err(ParseError::UnexpectedEnd)
        } else {
            sp_stars(s, j, a)
        },
    }
}

/// A run of postfix `*`, each wrapping the node in `KleeneStar`.
pub open spec fn sp_stars(s: Seq<char>, i: int, a: RegexAst) -> Result<
    (RegexAst, int),
    ParseError,
>
    decreases s.len() - i, 3int,
{
    if 0 <= i < s.len() && s[i] == '*' {
        sp_stars(s, i + 1, RegexAst::KleeneStar(Box::new(a)))
    } else {
        sp_qmarks(s, i, a)
    }
}

/// A run of postfix `?`, each wrapping the node in `Qmark`.
pub open spec fn sp_qmarks(s: Seq<char>, i: int, a: RegexAst) -> Result<
    (RegexAst, int),
    ParseError,
>
    decreases s.len() - i, 2int,
{
    if 0 <= i < s.len() && s[i] == '?' {
        sp_qmarks(s, i + 1, RegexAst::Qmark(Box::new(a)))
    } else {
        sp_pluses(s, i, a)
    }
}

/// A run of postfix `+`, each wrapping the node in `Plus`.
pub open spec fn sp_pluses(s: Seq<char>, i: int, a: RegexAst) -> Result<
    (RegexAst, int),
    ParseError,
>
    decreases s.len() - i, 1int,
{
    if 0 <= i < s.len() && s[i] == '+' {
        sp_pluses(s, i + 1, RegexAst::Plus(Box::new(a)))
    } else {
        Ok((a, i))
    }
}

/// Atom level: an escape `/x` (a literal `x`; `/` is the escape lead of
/// this grammar), a parenthesized sub-expression, `.`, or any
/// non-metacharacter as a literal.
pub open spec fn sp_atom(s: Seq<char>, i: int) -> Result<(RegexAst, int), ParseError>
    decreases s.len() - i, 0int,
{
    if i < 0 || i >= s.len() {
        Err(ParseError::UnexpectedEnd)
    } else if s[i] == '/' {
        if i + 1 < s.len() {
            Ok((RegexAst::Literal(s[i + 1]), i + 2))
        } else {
            Err(ParseError::UnexpectedEnd)
        }
    } else if s[i] == '(' {
        match sp_alternation(s, i + 1) {
            Err(e) => Err(e),
            Ok((inner, j)) => if 0 <= j < s.len() && s[j] == ')' {
                Ok((inner, j + 1))
            } else {
                Err(ParseError::UnmatchedParen)
            },
        }
    } else if s[i] == '.' {
        Ok((RegexAst::Dot, i + 1))
    } else if !is_meta_spec(s[i]) {
        Ok((RegexAst::Literal(s[i]), i + 1))
    } else {
        Err(ParseError::UnexpectedChar(s[i]))
    }
}

/// What parsing a whole pattern yields: the alternation read from the
/// front of the input. Input left over at a stray `)` is ignored.
pub open spec fn sp_parse(s: Seq<char>) -> Result<RegexAst, ParseError> {
    match sp_alternation(s, 0) {
        Ok((ast, _)) => Ok(ast),
        Err(e) => Err(e),
    }
}

// ---------------------------------------------------------------------
// Laws of the grammar.
// ---------------------------------------------------------------------

/// Alternation and concatenation both fold to the left: for any literal
/// characters `a`, `b`, `c`, the pattern `a|b|c` parses as
/// `Alternate(Alternate(a, b), c)` and the pattern `abc` as
/// `Concat(Concat(a, b), c)`.
pub proof fn lemma_parse_left_associative(a: char, b: char, c: char)
    requires
        !is_meta_spec(a) && a != '/' && a != '.',
        !is_meta_spec(b) && b != '/' && b != '.',
        !is_meta_spec(c) && c != '/' && c != '.',
    ensures
        sp_parse(seq![a, '|', b, '|', c]) == Ok::<RegexAst, ParseError>(
            RegexAst::Alternate(
                Box::new(
                    RegexAst::Alternate(
                        Box::new(RegexAst::Literal(a)),
                        Box::new(RegexAst::Literal(b)),
                    ),
                ),
                Box::new(RegexAst::Literal(c)),
            ),
        ),
        sp_parse(seq![a, b, c]) == Ok::<RegexAst, ParseError>(
            RegexAst::Concat(
                Box::new(
                    RegexAst::Concat(
                        Box::new(RegexAst::Literal(a)),
                        Box::new(RegexAst::Literal(b)),
                    ),
                ),
                Box::new(RegexAst::Literal(c)),
            ),
        ),
{
    let la = RegexAst::Literal(a);
    let lb = RegexAst::Literal(b);
    let lc = RegexAst::Literal(c);
    let s = seq![a, '|', b, '|', c];
    assert(s.len() == 5 && s[0] == a && s[1] == '|' && s[2] == b && s[3] == '|' && s[4] == c);
    assert(sp_atom(s, 0) == Ok::<(RegexAst, int), ParseError>((la, 1)));
    assert(sp_pluses(s, 1, la) == Ok::<(RegexAst, int), ParseError>((la, 1)));
    assert(sp_qmarks(s, 1, la) == Ok::<(RegexAst, int), ParseError>((la, 1)));
    assert(sp_stars(s, 1, la) == Ok::<(RegexAst, int), ParseError>((la, 1)));
    assert(sp_quantified(s, 0) == Ok::<(RegexAst, int), ParseError>((la, 1)));
    assert(sp_concat_more(s, 1, la) == Ok::<(RegexAst, int), ParseError>((la, 1)));
    assert(sp_concat(s, 0) == Ok::<(RegexAst, int), ParseError>((la, 1)));
    assert(sp_atom(s, 2) == Ok::<(RegexAst, int), ParseError>((lb, 3)));
    assert(sp_pluses(s, 3, lb) == Ok::<(RegexAst, int), ParseError>((lb, 3)));
    assert(sp_qmarks(s, 3, lb) == Ok::<(RegexAst, int), ParseError>((lb, 3)));
    assert(sp_stars(s, 3, lb) == Ok::<(RegexAst, int), ParseError>((lb, 3)));
    assert(sp_quantified(s, 2) == Ok::<(RegexAst, int), ParseError>((lb, 3)));
    assert(sp_concat_more(s, 3, lb) == Ok::<(RegexAst, int), ParseError>((lb, 3)));
    assert(sp_concat(s, 2) == Ok::<(RegexAst, int), ParseError>((lb, 3)));
    assert(sp_atom(s, 4) == Ok::<(RegexAst, int), ParseError>((lc, 5)));
    assert(sp_pluses(s, 5, lc) == Ok::<(RegexAst, int), ParseError>((lc, 5)));
    assert(sp_qmarks(s, 5, lc) == Ok::<(RegexAst, int), ParseError>((lc, 5)));
    assert(sp_stars(s, 5, lc) == Ok::<(RegexAst, int), ParseError>((lc, 5)));
    assert(sp_quantified(s, 4) == Ok::<(RegexAst, int), ParseError>((lc, 5)));
    assert(sp_concat_more(s, 5, lc) == Ok::<(RegexAst, int), ParseError>((lc, 5)));
    assert(sp_concat(s, 4) == Ok::<(RegexAst, int), ParseError>((lc, 5)));
    let ab = RegexAst::Alternate(Box::new(la), Box::new(lb));
    let abc = RegexAst::Alternate(Box::new(ab), Box::new(lc));
    assert(sp_alternation_more(s, 5, abc) == Ok::<(RegexAst, int), ParseError>((abc, 5)));
    assert(sp_alternation_more(s, 3, ab) == Ok::<(RegexAst, int), ParseError>((abc, 5)));
    assert(sp_alternation_more(s, 1, la) == Ok::<(RegexAst, int), ParseError>((abc, 5)));
    assert(sp_alternation(s, 0) == Ok::<(RegexAst, int), ParseError>((abc, 5)));
    assert(sp_parse(s) == Ok::<RegexAst, ParseError>(abc));

    let s2 = seq![a, b, c];
    assert(s2.len() == 3 && s2[0] == a && s2[1] == b && s2[2] == c);
    assert(sp_atom(s2, 0) == Ok::<(RegexAst, int), ParseError>((la, 1)));
    assert(sp_pluses(s2, 1, la) == Ok::<(RegexAst, int), ParseError>((la, 1)));
    assert(sp_qmarks(s2, 1, la) == Ok::<(RegexAst, int), ParseError>((la, 1)));
    assert(sp_stars(s2, 1, la) == Ok::<(RegexAst, int), ParseError>((la, 1)));
    assert(sp_quantified(s2, 0) == Ok::<(RegexAst, int), ParseError>((la, 1)));
    assert(sp_atom(s2, 1) == Ok::<(RegexAst, int), ParseError>((lb, 2)));
    assert(sp_pluses(s2, 2, lb) == Ok::<(RegexAst, int), ParseError>((lb, 2)));
    assert(sp_qmarks(s2, 2, lb) == Ok::<(RegexAst, int), ParseError>((lb, 2)));
    assert(sp_stars(s2, 2, lb) == Ok::<(RegexAst, int), ParseError>((lb, 2)));
    assert(sp_quantified(s2, 1) == Ok::<(RegexAst, int), ParseError>((lb, 2)));
    assert(sp_atom(s2, 2) == Ok::<(RegexAst, int), ParseError>((lc, 3)));
    assert(sp_pluses(s2, 3, lc) == Ok::<(RegexAst, int), ParseError>((lc, 3)));
    assert(sp_qmarks(s2, 3, lc) == Ok::<(RegexAst, int), ParseError>((lc, 3)));
    assert(sp_stars(s2, 3, lc) == Ok::<(RegexAst, int), ParseError>((lc, 3)));
    assert(sp_quantified(s2, 2) == Ok::<(RegexAst, int), ParseError>((lc, 3)));
    let cab = RegexAst::Concat(Box::new(la), Box::new(lb));
    let cabc = RegexAst::Concat(Box::new(cab), Box::new(lc));
    assert(sp_concat_more(s2, 3, cabc) == Ok::<(RegexAst, int), ParseError>((cabc, 3)));
    assert(sp_concat_more(s2, 2, cab) == Ok::<(RegexAst, int), ParseError>((cabc, 3)));
    assert(sp_concat_more(s2, 1, la) == Ok::<(RegexAst, int), ParseError>((cabc, 3)));
    assert(sp_concat(s2, 0) == Ok::<(RegexAst, int), ParseError>((cabc, 3)));
    assert(sp_alternation_more(s2, 3, cabc) == Ok::<(RegexAst, int), ParseError>((cabc, 3)));
    assert(sp_alternation(s2, 0) == Ok::<(RegexAst, int), ParseError>((cabc, 3)));
    assert(sp_parse(s2) == Ok::<RegexAst, ParseError>(cabc));
}

/// An escape is a literal, never a quantifier: for any literal character
/// `a` and any character `x` at all, the pattern `a/x` parses as
/// `Concat(Literal(a), Literal(x))`.
pub proof fn lemma_escape_is_literal(a: char, x: char)
    requires
        !is_meta_spec(a) && a != '/' && a != '.',
    ensures
        sp_parse(seq![a, '/', x]) == Ok::<RegexAst, ParseError>(
            RegexAst::Concat(Box::new(RegexAst::Literal(a)), Box::new(RegexAst::Literal(x))),
        ),
{
    let la = RegexAst::Literal(a);
    let lx = RegexAst::Literal(x);
    let s = seq![a, '/', x];
    assert(s.len() == 3 && s[0] == a && s[1] == '/' && s[2] == x);
    assert(sp_atom(s, 0) == Ok::<(RegexAst, int), ParseError>((la, 1)));
    assert(sp_pluses(s, 1, la) == Ok::<(RegexAst, int), ParseError>((la, 1)));
    assert(sp_qmarks(s, 1, la) == Ok::<(RegexAst, int), ParseError>((la, 1)));
    assert(sp_stars(s, 1, la) == Ok::<(RegexAst, int), ParseError>((la, 1)));
    assert(sp_quantified(s, 0) == Ok::<(RegexAst, int), ParseError>((la, 1)));
    assert(sp_atom(s, 1) == Ok::<(RegexAst, int), ParseError>((lx, 3)));
    assert(sp_pluses(s, 3, lx) == Ok::<(RegexAst, int), ParseError>((lx, 3)));
    assert(sp_qmarks(s, 3, lx) == Ok::<(RegexAst, int), ParseError>((lx, 3)));
    assert(sp_stars(s, 3, lx) == Ok::<(RegexAst, int), ParseError>((lx, 3)));
    assert(sp_quantified(s, 1) == Ok::<(RegexAst, int), ParseError>((lx, 3)));
    let cax = RegexAst::Concat(Box::new(la), Box::new(lx));
    assert(sp_concat_more(s, 3, cax) == Ok::<(RegexAst, int), ParseError>((cax, 3)));
    assert(sp_concat_more(s, 1, la) == Ok::<(RegexAst, int), ParseError>((cax, 3)));
    assert(sp_concat(s, 0) == Ok::<(RegexAst, int), ParseError>((cax, 3)));
    assert(sp_alternation_more(s, 3, cax) == Ok::<(RegexAst, int), ParseError>((cax, 3)));
    assert(sp_alternation(s, 0) == Ok::<(RegexAst, int), ParseError>((cax, 3)));
    assert(sp_parse(s) == Ok::<RegexAst, ParseError>(cax));
}

// ---------------------------------------------------------------------
// The executable parser.
// ---------------------------------------------------------------------

/// Whether `c` is a metacharacter of the grammar.
pub fn is_metachar(c: char) -> (r: bool)
    ensures
        r == is_meta_spec(c),
{
    c == '*' || c == '(' || c == ')' || c == '|' || c == '+' || c == '?'
}

/// The characters of `s`, as a vector indexed by code-point position.
pub(crate) fn chars_vec(s: &str) -> (v: Vec<char>)
    ensures
        v@ == s@,
{
    let n = s.unicode_len();
    let mut v: Vec<char> = Vec::new();
    let mut i: usize = 0;
    while i < n
        invariant
            i <= n,
            n == s@.len(),
            v@.len() == i,
            forall|j: int| 0 <= j < i ==> v@[j] == s@[j],
        decreases n - i,
    {
        v.push(s.get_char(i));
        i = i + 1;
    }
    proof {
        assert(v@ =~= s@);
    }
    v
}

/// Parse a pattern string into a syntax tree, or report the one error
/// among [`ParseError`]'s cases that the pattern falls under.
pub fn parse(input: &str) -> (r: Result<RegexAst, ParseError>)
    ensures
        r == sp_parse(input@),
{
    let chars = chars_vec(input);
    let (res, _) = parse_alternation(&chars, 0);
    res
}

/// Alternation level of the descent; see [`sp_alternation`].
fn parse_alternation(chars: &Vec<char>, pos: usize) -> (r: (Result<RegexAst, ParseError>, usize))
    requires
        pos <= chars@.len(),
    ensures
        match r.0 {
            Ok(n) => sp_alternation(chars@, pos as int) == Ok::<(RegexAst, int), ParseError>(
                (n, r.1 as int),
            ) && pos < r.1 <= chars@.len(),
            Err(e) => sp_alternation(chars@, pos as int) == Err::<(RegexAst, int), ParseError>(e),
        },
    decreases chars@.len() - pos, 6int,
{
    let (first, p0) = parse_concat(chars, pos);
    let mut left = match first {
        Ok(n) => n,
        Err(e) => {
            return (Err(e), p0);
        },
    };
    let mut p = p0;
    while p < chars.len() && chars[p] == '|'
        invariant
            pos < p <= chars@.len(),
            sp_alternation(chars@, pos as int) == sp_alternation_more(chars@, p as int, left),
        decreases chars@.len() - p,
    {
        let (next, p2) = parse_concat(chars, p + 1);
        match next {
            Ok(right) => {
                left = RegexAst::Alternate(Box::new(left), Box::new(right));
                p = p2;
            },
            Err(e) => {
                return (Err(e), p2);
            },
        }
    }
    (Ok(left), p)
}

/// Concatenation level of the descent; see [`sp_concat`].
fn parse_concat(chars: &Vec<char>, pos: usize) -> (r: (Result<RegexAst, ParseError>, usize))
    requires
        pos <= chars@.len(),
    ensures
        match r.0 {
            Ok(n) => sp_concat(chars@, pos as int) == Ok::<(RegexAst, int), ParseError>(
                (n, r.1 as int),
            ) && pos < r.1 <= chars@.len(),
            Err(e) => sp_concat(chars@, pos as int) == Err::<(RegexAst, int), ParseError>(e),
        },
    decreases chars@.len() - pos, 5int,
{
    if pos >= chars.len() || chars[pos] == ')' || chars[pos] == '|' {
        return (Err(ParseError::UnexpectedEnd), pos);
    }
    let (first, p0) = parse_kleene(chars, pos);
    let mut result = match first {
        Ok(n) => n,
        Err(e) => {
            return (Err(e), p0);
        },
    };
    let mut p = p0;
    while p < chars.len() && chars[p] != ')' && chars[p] != '|'
        invariant
            pos < p <= chars@.len(),
            sp_concat(chars@, pos as int) == sp_concat_more(chars@, p as int, result),
        decreases chars@.len() - p,
    {
        let (next, p2) = parse_kleene(chars, p);
        match next {
            Ok(part) => {
                result = RegexAst::Concat(Box::new(result), Box::new(part));
                p = p2;
            },
            Err(e) => {
                return (Err(e), p2);
            },
        }
    }
    (Ok(result), p)
}

/// Quantifier level of the descent; see [`sp_quantified`].
fn parse_kleene(chars: &Vec<char>, pos: usize) -> (r: (Result<RegexAst, ParseError>, usize))
    requires
        pos <= chars@.len(),
    ensures
        match r.0 {
            Ok(n) => sp_quantified(chars@, pos as int) == Ok::<(RegexAst, int), ParseError>(
                (n, r.1 as int),
            ) && pos < r.1 <= chars@.len(),
            Err(e) => sp_quantified(chars@, pos as int) == Err::<(RegexAst, int), ParseError>(e),
        },
    decreases chars@.len() - pos, 4int,
{
    let (first, p0) = parse_atom(chars, pos);
    let mut node = match first {
        Ok(n) => n,
        Err(e) => {
            return (Err(e), p0);
        },
    };
    let mut p = p0;
    while p < chars.len() && chars[p] == '*'
        invariant
            pos < p <= chars@.len(),
            sp_quantified(chars@, pos as int) == sp_stars(chars@, p as int, node),
        decreases chars@.len() - p,
    {
        p = p + 1;
        node = RegexAst::KleeneStar(Box::new(node));
    }
    while p < chars.len() && chars[p] == '?'
        invariant
            pos < p <= chars@.len(),
            sp_quantified(chars@, pos as int) == sp_qmarks(chars@, p as int, node),
        decreases chars@.len() - p,
    {
        p = p + 1;
        node = RegexAst::Qmark(Box::new(node));
    }
    while p < chars.len() && chars[p] == '+'
        invariant
            pos < p <= chars@.len(),
            sp_quantified(chars@, pos as int) == sp_pluses(chars@, p as int, node),
        decreases chars@.len() - p,
    {
        p = p + 1;
        node = RegexAst::Plus(Box::new(node));
    }
    (Ok(node), p)
}

/// Atom level of the descent; see [`sp_atom`].
fn parse_atom(chars: &Vec<char>, pos: usize) -> (r: (Result<RegexAst, ParseError>, usize))
    requires
        pos <= chars@.len(),
    ensures
        match r.0 {
            Ok(n) => sp_atom(chars@, pos as int) == Ok::<(RegexAst, int), ParseError>(
                (n, r.1 as int),
            ) && pos < r.1 <= chars@.len(),
            Err(e) => sp_atom(chars@, pos as int) == Err::<(RegexAst, int), ParseError>(e),
        },
    decreases chars@.len() - pos, 0int,
{
    if pos >= chars.len() {
        return (Err(ParseError::UnexpectedEnd), pos);
    }
    let c = chars[pos];
    if c == '/' {
        if pos + 1 < chars.len() {
            let escaped = chars[pos + 1];
            (Ok(RegexAst::Literal(escaped)), pos + 2)
        } else {
            (Err(ParseError::UnexpectedEnd), pos)
        }
    } else if c == '(' {
        let (inner, p) = parse_alternation(chars, pos + 1);
        match inner {
            Ok(n) => {
                if p < chars.len() && chars[p] == ')' {
                    (Ok(n), p + 1)
                } else {
                    (Err(ParseError::UnmatchedParen), p)
                }
            },
            Err(e) => (Err(e), p),
        }
    } else if c == '.' {
        (Ok(RegexAst::Dot), pos + 1)
    } else if !is_metachar(c) {
        (Ok(RegexAst::Literal(c)), pos + 1)
    } else {
        (Err(ParseError::UnexpectedChar(c)), pos)
    }
}

} // verus!
