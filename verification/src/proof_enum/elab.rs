//! Elaboration of witness bytes into core terms.
//!
//! A witness is first read as the canonical serialization of a term; failing
//! that, as UTF-8 text holding a natural number literal or an identifier.

use super::core_term::{parse_term, string_from_utf8, CoreCtx, CoreTerm, Term};
use super::statement::{get_statement, statement_of, str_eq, ProofStatement};
use super::text::{end_solid, first_solid, is_white_space, trim, trim_str};
use vstd::prelude::*;
use vstd::slice::slice_to_vec;
use vstd::utf8::{decode_utf8, valid_utf8};

verus! {

broadcast use vstd::string::group_string_axioms;

/// The ASCII digit `c` as a number.
pub open spec fn digit_value(c: char) -> int {
    c as int - '0' as int
}

pub open spec fn is_digit(c: char) -> bool {
    '0' <= c <= '9'
}

/// Value of a string of decimal digits.
pub open spec fn digits_value(s: Seq<char>) -> int
    decreases s.len(),
{
    if s.len() == 0 {
        0
    } else {
        10 * digits_value(s.drop_last()) + digit_value(s.last())
    }
}

/// The text after an optional leading `+`.
pub open spec fn unsigned_digits(s: Seq<char>) -> Seq<char> {
    if s.len() > 0 && s[0] == '+' {
        s.drop_first()
    } else {
        s
    }
}

pub open spec fn all_digits(d: Seq<char>) -> bool {
    forall|i: int| 0 <= i < d.len() ==> is_digit(#[trigger] d[i])
}

/// What `u64::from_str` accepts: an optional `+`, then one or more ASCII
/// digits, with a value that fits in 64 bits.
pub open spec fn parse_u64_spec(s: Seq<char>) -> Option<u64> {
    let d = unsigned_digits(s);
    if d.len() > 0 && all_digits(d) && digits_value(d) <= u64::MAX {
        Some(digits_value(d) as u64)
    } else {
        None
    }
}

proof fn lemma_digits_value_mono(s: Seq<char>, k: int)
    requires
        0 <= k <= s.len(),
        forall|i: int| 0 <= i < s.len() ==> is_digit(#[trigger] s[i]),
    ensures
        0 <= digits_value(s.take(k)) <= digits_value(s),
    decreases s.len(),
{
    if k == s.len() {
        assert(s.take(k) =~= s);
        lemma_digits_value_nonneg(s);
    } else {
        assert(s.drop_last().take(k) =~= s.take(k));
        lemma_digits_value_mono(s.drop_last(), k);
        lemma_digits_value_nonneg(s.drop_last());
    }
}

proof fn lemma_digits_value_nonneg(s: Seq<char>)
    requires
        forall|i: int| 0 <= i < s.len() ==> is_digit(#[trigger] s[i]),
    ensures
        digits_value(s) >= 0,
    decreases s.len(),
{
    if s.len() > 0 {
        lemma_digits_value_nonneg(s.drop_last());
    }
}

/// Parse a decimal `u64` as `u64::from_str` does.
fn parse_u64(s: &str) -> (r: Option<u64>)
    ensures
        r == parse_u64_spec(s@),
{
    let n = s.unicode_len();
    let mut i: usize = 0;
    if n > 0 && s.get_char(0) == '+' {
        i = 1;
    }
    let ghost d = unsigned_digits(s@);
    assert(d =~= s@.subrange(i as int, n as int));
    if i == n {
        return None;
    }
    let start = i;
    let mut value: u64 = 0;
    let mut overflow = false;
    while i < n
        invariant
            start <= i <= n,
            n == s@.len(),
            d == s@.subrange(start as int, n as int),
            d == unsigned_digits(s@),
            forall|k: int| 0 <= k < i - start ==> is_digit(#[trigger] d[k]),
            !overflow ==> value == digits_value(d.take(i - start)),
            overflow ==> digits_value(d.take(i - start)) > u64::MAX,
        decreases n - i,
    {
        let c = s.get_char(i);
        assert(c == d[i - start]);
        if !('0' <= c && c <= '9') {
            assert(!is_digit(d[i - start]));
            assert(!all_digits(d));
            return None;
        }
        let ghost k = i - start;
        proof {
            assert(d.take(k + 1).drop_last() =~= d.take(k));
            assert(d.take(k + 1).last() == c);
        }
        if !overflow {
            let dv = (c as u64) - ('0' as u64);
            if value > (u64::MAX - dv) / 10 {
                overflow = true;
                assert(digits_value(d.take(k + 1)) > u64::MAX) by (nonlinear_arith)
                    requires
                        digits_value(d.take(k + 1)) == 10 * digits_value(d.take(k)) + dv,
                        value == digits_value(d.take(k)),
                        value > (u64::MAX - dv) / 10,
                        0 <= dv <= 9,
                ;
            } else {
                value = value * 10 + dv;
            }
        } else {
            proof {
                lemma_digits_value_nonneg(d.take(k));
                assert(digits_value(d.take(k + 1)) > u64::MAX) by (nonlinear_arith)
                    requires
                        digits_value(d.take(k + 1)) == 10 * digits_value(d.take(k)) + digit_value(c),
                        digits_value(d.take(k)) > u64::MAX,
                        '0' <= c <= '9',
                ;
            }
        }
        i = i + 1;
    }
    assert(d.take(n - start) =~= d);
    if overflow {
        None
    } else {
        Some(value)
    }
}

/// Name of an identifier character other than a letter or digit.
pub open spec fn is_ident_punct(c: char) -> bool {
    c == '_' || c == '.'
}

/// Whether a character is alphabetic or numeric in Unicode.
pub uninterp spec fn unicode_alphanumeric(c: char) -> bool;

/// An ASCII letter or digit.
pub open spec fn ascii_alphanumeric(c: char) -> bool {
    ('a' <= c <= 'z') || ('A' <= c <= 'Z') || ('0' <= c <= '9')
}

/// Whether a character is alphabetic or numeric: among ASCII characters
/// the letters and digits, elsewhere as the Unicode tables say.
pub open spec fn alphanumeric(c: char) -> bool {
    if (c as u32) < 128 {
        ascii_alphanumeric(c)
    } else {
        unicode_alphanumeric(c)
    }
}

/// Whether a character is alphabetic or numeric.
///
/// Calls `char::is_alphanumeric`, which answers by the Unicode tables of
/// the standard library; the contract names the answer, and states what
/// the documentation gives for ASCII: there the alphabetic characters are
/// the letters and the numeric ones the digits. Of the tables beyond ASCII
/// it says nothing.
#[verifier::external_body]
fn is_alphanumeric(c: char) -> (b: bool)
    ensures
        b == unicode_alphanumeric(c),
        (c as u32) < 128 ==> b == ascii_alphanumeric(c),
{
    c.is_alphanumeric()
}

/// The term a piece of witness text stands for: a natural number literal,
/// an identifier (letters, digits, `_` and `.`), or nothing.
pub open spec fn simple_term(text: Seq<char>) -> Option<Term> {
    let t = trim(text);
    if t.len() == 0 {
        None
    } else {
        match parse_u64_spec(t) {
            Some(n) => Some(Term::NatLit(n)),
            None => if forall|i: int|
                0 <= i < t.len() ==> alphanumeric(#[trigger] t[i]) || is_ident_punct(t[i]) {
                Some(Term::Const(t, Seq::empty()))
            } else {
                None
            },
        }
    }
}

fn parse_simple_term(text: &str) -> (r: Option<CoreTerm>)
    ensures
        match simple_term(text@) {
            None => r is None,
            Some(x) => r matches Some(y) && y@ == x,
        },
{
    let t = trim_str(text);
    let n = t.unicode_len();
    if n == 0 {
        return None;
    }
    if let Some(v) = parse_u64(t) {
        return Some(CoreTerm::NatLit(v));
    }
    let mut i: usize = 0;
    while i < n
        invariant
            i <= n,
            n == t@.len(),
            n > 0,
            t@ == trim(text@),
            parse_u64_spec(t@) is None,
            forall|k: int| 0 <= k < i ==> alphanumeric(#[trigger] t@[k]) || is_ident_punct(t@[k]),
        decreases n - i,
    {
        let c = t.get_char(i);
        if !(is_alphanumeric(c) || c == '_' || c == '.') {
            assert(!(alphanumeric(t@[i as int]) || is_ident_punct(t@[i as int])));
            return None;
        }
        i = i + 1;
    }
    let levels: Vec<u32> = Vec::new();
    assert(levels@ =~= Seq::<u32>::empty());
    Some(CoreTerm::Const { name: t.to_string(), levels })
}

/// `s` begins with `p`.
pub open spec fn starts_with(s: Seq<char>, p: Seq<char>) -> bool {
    p.len() <= s.len() && s.take(p.len() as int) == p
}

/// `s` with every leading repetition of the non-empty `p` removed.
pub open spec fn strip_all(s: Seq<char>, p: Seq<char>) -> Seq<char>
    decreases s.len(),
{
    if p.len() > 0 && starts_with(s, p) {
        strip_all(s.skip(p.len() as int), p)
    } else {
        s
    }
}

/// An opening bracket: `(`, `[` or `{`.
pub open spec fn is_open_bracket(c: char) -> bool {
    c == '(' || c == '[' || c == '{'
}

/// A closing bracket: `)`, `]` or `}`.
pub open spec fn is_close_bracket(c: char) -> bool {
    c == ')' || c == ']' || c == '}'
}

/// Index of the first occurrence of `target` at or after `i` outside any
/// brackets, where the bracket depth before position `i` is `depth`.
/// Brackets are counted, not matched: any closing bracket lowers the depth.
pub open spec fn find_top_from(s: Seq<char>, target: char, i: int, depth: int) -> Option<int>
    decreases s.len() - i,
{
    if i < 0 || i >= s.len() {
        None
    } else if is_open_bracket(s[i]) {
        find_top_from(s, target, i + 1, depth + 1)
    } else if is_close_bracket(s[i]) {
        find_top_from(s, target, i + 1, depth - 1)
    } else if depth == 0 && s[i] == target {
        Some(i)
    } else {
        find_top_from(s, target, i + 1, depth)
    }
}

/// Index of the first occurrence of `target` outside any brackets.
pub open spec fn find_top(s: Seq<char>, target: char) -> Option<int> {
    find_top_from(s, target, 0, 0)
}

/// Index of the first occurrence of `c` at or after `i`.
pub open spec fn first_index_from(s: Seq<char>, c: char, i: int) -> Option<int>
    decreases s.len() - i,
{
    if i < 0 || i >= s.len() {
        None
    } else if s[i] == c {
        Some(i)
    } else {
        first_index_from(s, c, i + 1)
    }
}

/// Index of the first occurrence of `c`.
pub open spec fn first_index(s: Seq<char>, c: char) -> Option<int> {
    first_index_from(s, c, 0)
}

pub open spec fn forall_symbol() -> Seq<char> {
    seq!['∀']
}

pub open spec fn forall_word() -> Seq<char> {
    seq!['f', 'o', 'r', 'a', 'l', 'l']
}

pub open spec fn exists_symbol() -> Seq<char> {
    seq!['∃']
}

pub open spec fn exists_word() -> Seq<char> {
    seq!['e', 'x', 'i', 's', 't', 's']
}

/// A constant without universe levels.
pub open spec fn named(name: Seq<char>) -> Term {
    Term::Const(name, Seq::empty())
}

/// `f a b` for the constant `f`.
pub open spec fn binary_app(f: Seq<char>, a: Term, b: Term) -> Term {
    Term::App(Box::new(Term::App(Box::new(named(f)), Box::new(a))), Box::new(b))
}

/// The type of a binder `x : T` (`Prop`, or the constant named by `T`), or
/// `Nat` for a binder without a type.
pub open spec fn binder_type(b: Seq<char>) -> Term {
    match first_index(b, ':') {
        Some(c) => {
            let ty = trim(b.skip(c + 1));
            if ty == seq!['P', 'r', 'o', 'p'] {
                Term::Prop
            } else {
                named(ty)
            }
        },
        None => named(seq!['N', 'a', 't']),
    }
}

/// The core term that a Lean proposition stands for, read after trimming.
pub open spec fn lean_prop(s: Seq<char>) -> Term
    decreases s.len(), 1int,
{
    proof {
        lemma_trim_len(s);
    }
    prop_of_trimmed(trim(s))
}

/// The text after the leading universal quantifier symbols or words.
pub open spec fn after_forall(t: Seq<char>) -> Seq<char> {
    trim(strip_all(strip_all(t, forall_symbol()), forall_word()))
}

/// The core term for a trimmed proposition, by the first form that applies:
/// a universal quantifier `∀ x : T, body`; an implication; an existential,
/// kept whole as a named constant; a conjunction; a negation; `≠`; `≥`; a
/// natural number literal; a parenthesized proposition; a type ascription
/// `(e : T)`, read as `T`; else a constant named by the text.
pub open spec fn prop_of_trimmed(t: Seq<char>) -> Term
    decreases t.len(), 0int,
{
    proof {
        lemma_quantifier_shrinks(t);
        lemma_find_top_from(t, '→', 0, 0);
        lemma_find_top_from(t, '∧', 0, 0);
        lemma_find_top_from(t, '≠', 0, 0);
        lemma_find_top_from(t, '≥', 0, 0);
        lemma_first_index_from(t, ':', 0);
    }
    let rest = after_forall(t);
    if (starts_with(t, forall_symbol()) || starts_with(t, forall_word())) && find_top(rest, ',') is Some {
        let k = find_top(rest, ',').unwrap();
        Term::Pi(
            Box::new(binder_type(trim(rest.take(k)))),
            Box::new(lean_prop(rest.skip(k + 1))),
        )
    } else if find_top(t, '→') is Some {
        let k = find_top(t, '→').unwrap();
        Term::Pi(Box::new(lean_prop(t.take(k))), Box::new(lean_prop(t.skip(k + 1))))
    } else if starts_with(t, exists_symbol()) || starts_with(t, exists_word()) {
        named(seq!['E', 'x', 'i', 's', 't', 's', '('] + t + seq![')'])
    } else if find_top(t, '∧') is Some {
        let k = find_top(t, '∧').unwrap();
        binary_app(seq!['A', 'n', 'd'], lean_prop(t.take(k)), lean_prop(t.skip(k + 1)))
    } else if t.len() > 0 && t[0] == '¬' {
        Term::App(Box::new(named(seq!['N', 'o', 't'])), Box::new(lean_prop(t.skip(1))))
    } else if find_top(t, '≠') is Some {
        let k = find_top(t, '≠').unwrap();
        binary_app(seq!['N', 'e'], lean_prop(t.take(k)), lean_prop(t.skip(k + 1)))
    } else if find_top(t, '≥') is Some {
        let k = find_top(t, '≥').unwrap();
        binary_app(seq!['G', 'e'], lean_prop(t.take(k)), lean_prop(t.skip(k + 1)))
    } else if parse_u64_spec(t) is Some {
        Term::NatLit(parse_u64_spec(t).unwrap())
    } else if t.len() >= 2 && t[0] == '(' && t[t.len() - 1] == ')' {
        lean_prop(t.subrange(1, t.len() - 1))
    } else if first_index(t, ':') is Some && first_index(t, '∀') is None {
        lean_prop(t.skip(first_index(t, ':').unwrap() + 1))
    } else {
        named(t)
    }
}

pub proof fn lemma_find_top_from(s: Seq<char>, target: char, i: int, depth: int)
    requires
        0 <= i,
    ensures
        find_top_from(s, target, i, depth) matches Some(k) ==> i <= k < s.len(),
    decreases s.len() - i,
{
    if i < s.len() {
        lemma_find_top_from(s, target, i + 1, depth + 1);
        lemma_find_top_from(s, target, i + 1, depth - 1);
        lemma_find_top_from(s, target, i + 1, depth);
    }
}

pub proof fn lemma_first_index_from(s: Seq<char>, c: char, i: int)
    requires
        0 <= i,
    ensures
        first_index_from(s, c, i) matches Some(k) ==> i <= k < s.len() && s[k] == c,
    decreases s.len() - i,
{
    if i < s.len() {
        lemma_first_index_from(s, c, i + 1);
    }
}

pub proof fn lemma_strip_all_len(s: Seq<char>, p: Seq<char>)
    ensures
        strip_all(s, p).len() <= s.len(),
        p.len() > 0 && starts_with(s, p) ==> strip_all(s, p).len() < s.len(),
    decreases s.len(),
{
    if p.len() > 0 && starts_with(s, p) {
        lemma_strip_all_len(s.skip(p.len() as int), p);
    }
}

pub proof fn lemma_first_solid_bounds(s: Seq<char>, i: int)
    requires
        0 <= i <= s.len(),
    ensures
        i <= first_solid(s, i),
        first_solid(s, i) >= s.len() || (first_solid(s, i) < s.len() && !is_white_space(
            s[first_solid(s, i)],
        )),
    decreases s.len() - i,
{
    if i < s.len() && is_white_space(s[i]) {
        lemma_first_solid_bounds(s, i + 1);
    }
}

pub proof fn lemma_end_solid_bounds(s: Seq<char>, j: int, a: int)
    requires
        0 <= a < j <= s.len(),
        !is_white_space(s[a]),
    ensures
        a < end_solid(s, j) <= j,
    decreases j,
{
    if is_white_space(s[j - 1]) {
        lemma_end_solid_bounds(s, j - 1, a);
    }
}

/// Trimming never lengthens a string.
pub proof fn lemma_trim_len(s: Seq<char>)
    ensures
        trim(s).len() <= s.len(),
{
    lemma_first_solid_bounds(s, 0);
    let a = first_solid(s, 0);
    if a < s.len() {
        lemma_end_solid_bounds(s, s.len() as int, a);
    }
}

pub proof fn lemma_quantifier_shrinks(t: Seq<char>)
    ensures
        starts_with(t, forall_symbol()) || starts_with(t, forall_word()) ==> after_forall(t).len()
            < t.len(),
        find_top(after_forall(t), ',') matches Some(k) ==> 0 <= k < after_forall(t).len(),
{
    let s1 = strip_all(t, forall_symbol());
    let s2 = strip_all(s1, forall_word());
    lemma_strip_all_len(t, forall_symbol());
    lemma_strip_all_len(s1, forall_word());
    lemma_trim_len(s2);
    lemma_find_top_from(after_forall(t), ',', 0, 0);
}

fn has_prefix(s: &str, p: &str) -> (b: bool)
    ensures
        b == starts_with(s@, p@),
{
    let n = s.unicode_len();
    let m = p.unicode_len();
    if m > n {
        return false;
    }
    let mut i: usize = 0;
    while i < m
        invariant
            i <= m <= n,
            n == s@.len(),
            m == p@.len(),
            forall|k: int| 0 <= k < i ==> s@[k] == p@[k],
        decreases m - i,
    {
        if s.get_char(i) != p.get_char(i) {
            assert(s@.take(m as int)[i as int] != p@[i as int]);
            return false;
        }
        i = i + 1;
    }
    assert(s@.take(m as int) =~= p@);
    true
}

fn strip_prefixes<'a>(s: &'a str, p: &str) -> (r: &'a str)
    ensures
        r@ == strip_all(s@, p@),
{
    let m = p.unicode_len();
    if m == 0 {
        return s;
    }
    let mut cur = s;
    while has_prefix(cur, p)
        invariant
            m == p@.len(),
            m > 0,
            strip_all(cur@, p@) == strip_all(s@, p@),
        decreases cur@.len(),
    {
        let n = cur.unicode_len();
        cur = cur.substring_char(m, n);
    }
    cur
}

/// Index of the first occurrence of `target` outside any brackets.
fn find_top_level(s: &str, target: char) -> (r: Option<usize>)
    ensures
        match r {
            Some(k) => find_top(s@, target) == Some(k as int),
            None => find_top(s@, target) is None,
        },
{
    let n = s.unicode_len();
    let mut opens: usize = 0;
    let mut closes: usize = 0;
    let mut i: usize = 0;
    while i < n
        invariant
            i <= n,
            n == s@.len(),
            opens <= i,
            closes <= i,
            find_top(s@, target) == find_top_from(s@, target, i as int, opens - closes),
        decreases n - i,
    {
        let c = s.get_char(i);
        if c == '(' || c == '[' || c == '{' {
            opens = opens + 1;
        } else if c == ')' || c == ']' || c == '}' {
            closes = closes + 1;
        } else if opens == closes && c == target {
            return Some(i);
        }
        i = i + 1;
    }
    None
}

fn find_char(s: &str, c: char) -> (r: Option<usize>)
    ensures
        match r {
            Some(k) => first_index(s@, c) == Some(k as int),
            None => first_index(s@, c) is None,
        },
{
    let n = s.unicode_len();
    let mut i: usize = 0;
    while i < n
        invariant
            i <= n,
            n == s@.len(),
            first_index(s@, c) == first_index_from(s@, c, i as int),
        decreases n - i,
    {
        if s.get_char(i) == c {
            return Some(i);
        }
        i = i + 1;
    }
    None
}

fn named_const(name: String) -> (r: CoreTerm)
    ensures
        r@ == named(name@),
{
    let levels: Vec<u32> = Vec::new();
    assert(levels@ =~= Seq::<u32>::empty());
    CoreTerm::Const { name, levels }
}

fn binary(f: &str, a: CoreTerm, b: CoreTerm) -> (r: CoreTerm)
    ensures
        r@ == binary_app(f@, a@, b@),
{
    let head = named_const(String::from_str(f));
    let inner = CoreTerm::App { func: Box::new(head), arg: Box::new(a) };
    assert(inner@ == Term::App(Box::new(named(f@)), Box::new(a@)));
    CoreTerm::App { func: Box::new(inner), arg: Box::new(b) }
}

fn parse_binder_type(binder: &str) -> (r: CoreTerm)
    ensures
        r@ == binder_type(binder@),
{
    proof {
        reveal_strlit("Prop");
        reveal_strlit("Nat");
        assert("Prop"@ =~= seq!['P', 'r', 'o', 'p']);
        assert("Nat"@ =~= seq!['N', 'a', 't']);
    }
    match find_char(binder, ':') {
        Some(c) => {
            let n = binder.unicode_len();
            proof {
                lemma_first_index_from(binder@, ':', 0);
            }
            let ty = trim_str(binder.substring_char(c + 1, n));
            assert(binder@.subrange(c + 1, n as int) =~= binder@.skip(c + 1));
            if str_eq(ty, "Prop") {
                CoreTerm::Prop
            } else {
                named_const(String::from_str(ty))
            }
        },
        None => named_const(String::from_str("Nat")),
    }
}

/// Result of elaborating a statement into a goal.
#[derive(Debug)]
pub enum ElabResult {
    /// The goal to inhabit, with the term to fill (a hole, `Var(0)`) and
    /// its empty context.
    Elaborated { term: CoreTerm, ctx: CoreCtx, goal: CoreTerm },
    /// The statement has only the placeholder formalization `True`.
    IllTyped { statement_id: String },
}

impl ElabResult {
    pub fn is_ok(&self) -> (b: bool)
        ensures
            b == (self is Elaborated),
    {
        match self {
            ElabResult::Elaborated { .. } => true,
            ElabResult::IllTyped { .. } => false,
        }
    }
}

/// What elaborating a statement with identifier `id` and proposition
/// `prop` gives: ill-typed for the placeholder `True`, else the parsed goal.
pub open spec fn elab_outcome(id: Seq<char>, prop: Seq<char>, r: ElabResult) -> bool {
    if prop == "True"@ {
        r matches ElabResult::IllTyped { statement_id } && statement_id@ == id
    } else {
        r matches ElabResult::Elaborated { term, ctx, goal } && term@ == Term::Var(0) && ctx@ == Seq::<
            (Option<Seq<char>>, Term),
        >::empty() && goal@ == lean_prop(prop)
    }
}

/// Elaborate a statement into the goal that a witness must inhabit.
pub fn elab_statement(statement: &ProofStatement) -> (r: ElabResult)
    ensures
        elab_outcome(statement.id@, statement.lean_prop@, r),
{
    if str_eq(statement.lean_prop.as_str(), "True") {
        return ElabResult::IllTyped { statement_id: statement.id.clone() };
    }
    let goal = parse_lean_prop_to_core(statement.lean_prop.as_str());
    ElabResult::Elaborated { term: CoreTerm::Var(0), ctx: CoreCtx::new(), goal }
}

/// Elaborate the statement of a problem.
pub fn elab_problem(problem_id: &str) -> (r: ElabResult)
    ensures
        elab_outcome(statement_of(problem_id@).id, statement_of(problem_id@).lean_prop, r),
{
    let statement = get_statement(problem_id);
    elab_statement(&statement)
}


/// Parse a Lean proposition into a core term (see `prop_of_trimmed` for the
/// forms read).
pub fn parse_lean_prop_to_core(prop: &str) -> (r: CoreTerm)
    ensures
        r@ == lean_prop(prop@),
    decreases prop@.len(), 1int,
{
    proof {
        lemma_trim_len(prop@);
    }
    let t = trim_str(prop);
    parse_trimmed(t)
}

fn parse_trimmed(t: &str) -> (r: CoreTerm)
    ensures
        r@ == prop_of_trimmed(t@),
    decreases t@.len(), 0int,
{
    proof {
        lemma_quantifier_shrinks(t@);
        lemma_find_top_from(t@, '→', 0, 0);
        lemma_find_top_from(t@, '∧', 0, 0);
        lemma_find_top_from(t@, '≠', 0, 0);
        lemma_find_top_from(t@, '≥', 0, 0);
        lemma_first_index_from(t@, ':', 0);
        reveal_strlit("∀");
        reveal_strlit("forall");
        reveal_strlit("∃");
        reveal_strlit("exists");
        reveal_strlit("Exists(");
        reveal_strlit(")");
        reveal_strlit("And");
        reveal_strlit("Not");
        reveal_strlit("Ne");
        reveal_strlit("Ge");
        assert("∀"@ =~= forall_symbol());
        assert("forall"@ =~= forall_word());
        assert("∃"@ =~= exists_symbol());
        assert("exists"@ =~= exists_word());
        assert("Exists("@ =~= seq!['E', 'x', 'i', 's', 't', 's', '(']);
        assert(")"@ =~= seq![')']);
        assert("And"@ =~= seq!['A', 'n', 'd']);
        assert("Not"@ =~= seq!['N', 'o', 't']);
        assert("Ne"@ =~= seq!['N', 'e']);
        assert("Ge"@ =~= seq!['G', 'e']);
    }
    let n = t.unicode_len();
    if has_prefix(t, "∀") || has_prefix(t, "forall") {
        let rest = trim_str(strip_prefixes(strip_prefixes(t, "∀"), "forall"));
        if let Some(k) = find_top_level(rest, ',') {
            let m = rest.unicode_len();
            let binder = trim_str(rest.substring_char(0, k));
            let body = rest.substring_char(k + 1, m);
            proof {
                assert(rest@.subrange(0, k as int) =~= rest@.take(k as int));
                assert(body@ =~= rest@.skip(k + 1));
            }
            let param_type = parse_binder_type(binder);
            let b = parse_lean_prop_to_core(body);
            return CoreTerm::Pi { param_type: Box::new(param_type), body: Box::new(b) };
        }
    }
    if let Some(k) = find_top_level(t, '→') {
        let lhs = t.substring_char(0, k);
        let rhs = t.substring_char(k + 1, n);
        proof {
            assert(lhs@ =~= t@.take(k as int));
            assert(rhs@ =~= t@.skip(k + 1));
        }
        let a = parse_lean_prop_to_core(lhs);
        let b = parse_lean_prop_to_core(rhs);
        return CoreTerm::Pi { param_type: Box::new(a), body: Box::new(b) };
    }
    if has_prefix(t, "∃") || has_prefix(t, "exists") {
        return named_const(String::from_str("Exists(").concat(t).concat(")"));
    }
    if let Some(k) = find_top_level(t, '∧') {
        let lhs = t.substring_char(0, k);
        let rhs = t.substring_char(k + 1, n);
        proof {
            assert(lhs@ =~= t@.take(k as int));
            assert(rhs@ =~= t@.skip(k + 1));
        }
        return binary("And", parse_lean_prop_to_core(lhs), parse_lean_prop_to_core(rhs));
    }
    if n > 0 && t.get_char(0) == '¬' {
        let inner = t.substring_char(1, n);
        assert(inner@ =~= t@.skip(1));
        return CoreTerm::App {
            func: Box::new(named_const(String::from_str("Not"))),
            arg: Box::new(parse_lean_prop_to_core(inner)),
        };
    }
    if let Some(k) = find_top_level(t, '≠') {
        let lhs = t.substring_char(0, k);
        let rhs = t.substring_char(k + 1, n);
        proof {
            assert(lhs@ =~= t@.take(k as int));
            assert(rhs@ =~= t@.skip(k + 1));
        }
        return binary("Ne", parse_lean_prop_to_core(lhs), parse_lean_prop_to_core(rhs));
    }
    if let Some(k) = find_top_level(t, '≥') {
        let lhs = t.substring_char(0, k);
        let rhs = t.substring_char(k + 1, n);
        proof {
            assert(lhs@ =~= t@.take(k as int));
            assert(rhs@ =~= t@.skip(k + 1));
        }
        return binary("Ge", parse_lean_prop_to_core(lhs), parse_lean_prop_to_core(rhs));
    }
    if let Some(v) = parse_u64(t) {
        return CoreTerm::NatLit(v);
    }
    if n >= 2 && t.get_char(0) == '(' && t.get_char(n - 1) == ')' {
        return parse_lean_prop_to_core(t.substring_char(1, n - 1));
    }
    if let Some(c) = find_char(t, ':') {
        if find_char(t, '∀').is_none() {
            let ty = t.substring_char(c + 1, n);
            assert(ty@ =~= t@.skip(c + 1));
            return parse_lean_prop_to_core(ty);
        }
    }
    named_const(String::from_str(t))
}

/// Elaboration of witness bytes: the term they serialize, or else the
/// simple term their UTF-8 text stands for.
pub open spec fn elab_bytes(bytes: Seq<u8>) -> Option<Term> {
    match parse_term(bytes, 0) {
        Some((t, _)) => Some(t),
        None => if valid_utf8(bytes) {
            simple_term(decode_utf8(bytes))
        } else {
            None
        },
    }
}

/// Elaborate raw witness bytes into a core term.
pub fn elab_witness_bytes(bytes: &[u8]) -> (r: Option<CoreTerm>)
    ensures
        match elab_bytes(bytes@) {
            None => r is None,
            Some(x) => r matches Some(y) && y@ == x,
        },
{
    if let Some((term, _)) = CoreTerm::from_bytes(bytes) {
        return Some(term);
    }
    match string_from_utf8(slice_to_vec(bytes)) {
        Some(text) => parse_simple_term(text.as_str()),
        None => None,
    }
}

} // verus!
