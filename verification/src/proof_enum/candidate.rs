//! Proof candidates: Lean tactic scripts, enumerated by complexity.
//!
//! Enumeration levels, in order:
//! 1. single automation tactics (trivial, decide, simp, omega, ...)
//! 2. intro + a single tactic
//! 3. two intros of distinct names + a single tactic
//! 4. simp with common lemmas
//! 5. induction on common variables, closed by simp, omega or aesop
//! 6. intro + constructor + trivial, simp or omega
//! 7. exact with common terms
//! 8. use with small witnesses
//! 9. intro + use + simp

use vstd::prelude::*;

verus! {

broadcast use vstd::string::group_string_axioms;

/// A Lean tactic.
#[derive(Debug, PartialEq, Eq)]
pub enum Tactic {
    /// `decide`
    Decide,
    /// `native_decide`
    NativeDecide,
    /// `simp`
    Simp,
    /// `simp [lemma1, lemma2, ...]`
    SimpWith(Vec<String>),
    /// `omega`
    Omega,
    /// `ring`
    Ring,
    /// `norm_num`
    NormNum,
    /// `linarith`
    Linarith,
    /// `intro x`
    Intro(String),
    /// `apply lemma`
    Apply(String),
    /// `exact term`
    Exact(String),
    /// `constructor`
    Constructor,
    /// `cases x`
    Cases(String),
    /// `induction x`
    Induction(String),
    /// `have h : type := by <sub-tactics>`
    Have(String, Box<Vec<Tactic>>),
    /// `use witness`
    Use(String),
    /// `trivial`
    Trivial,
    /// `contradiction`
    Contradiction,
    /// `exfalso`
    Exfalso,
    /// `tauto`
    Tauto,
    /// `aesop`
    Aesop,
    /// Any tactic text.
    Custom(String),
}

/// Model of a tactic.
pub enum TacticModel {
    Decide,
    NativeDecide,
    Simp,
    SimpWith(Seq<Seq<char>>),
    Omega,
    Ring,
    NormNum,
    Linarith,
    Intro(Seq<char>),
    Apply(Seq<char>),
    Exact(Seq<char>),
    Constructor,
    Cases(Seq<char>),
    Induction(Seq<char>),
    Have(Seq<char>, Seq<TacticModel>),
    Use(Seq<char>),
    Trivial,
    Contradiction,
    Exfalso,
    Tauto,
    Aesop,
    Custom(Seq<char>),
}

/// Models of a vector of strings.
pub open spec fn strs(v: Seq<String>) -> Seq<Seq<char>> {
    Seq::new(v.len(), |i: int| v[i]@)
}

impl Tactic {
    pub open spec fn model(&self) -> TacticModel
        decreases self,
    {
        match self {
            Tactic::Decide => TacticModel::Decide,
            Tactic::NativeDecide => TacticModel::NativeDecide,
            Tactic::Simp => TacticModel::Simp,
            Tactic::SimpWith(ls) => TacticModel::SimpWith(strs(ls@)),
            Tactic::Omega => TacticModel::Omega,
            Tactic::Ring => TacticModel::Ring,
            Tactic::NormNum => TacticModel::NormNum,
            Tactic::Linarith => TacticModel::Linarith,
            Tactic::Intro(s) => TacticModel::Intro(s@),
            Tactic::Apply(s) => TacticModel::Apply(s@),
            Tactic::Exact(s) => TacticModel::Exact(s@),
            Tactic::Constructor => TacticModel::Constructor,
            Tactic::Cases(s) => TacticModel::Cases(s@),
            Tactic::Induction(s) => TacticModel::Induction(s@),
            Tactic::Have(s, subs) => TacticModel::Have(
                s@,
                Seq::new(
                    subs@.len(),
                    |i: int|
                        if 0 <= i < subs@.len() {
                            subs@[i].model()
                        } else {
                            TacticModel::Trivial
                        },
                ),
            ),
            Tactic::Use(s) => TacticModel::Use(s@),
            Tactic::Trivial => TacticModel::Trivial,
            Tactic::Contradiction => TacticModel::Contradiction,
            Tactic::Exfalso => TacticModel::Exfalso,
            Tactic::Tauto => TacticModel::Tauto,
            Tactic::Aesop => TacticModel::Aesop,
            Tactic::Custom(s) => TacticModel::Custom(s@),
        }
    }
}

impl View for Tactic {
    type V = TacticModel;

    open spec fn view(&self) -> TacticModel {
        self.model()
    }
}

/// Models of a vector of tactics.
pub open spec fn tactics(v: Seq<Tactic>) -> Seq<TacticModel> {
    Seq::new(v.len(), |i: int| v[i]@)
}

/// Strings joined with a separator.
pub open spec fn join(xs: Seq<Seq<char>>, sep: Seq<char>) -> Seq<char>
    decreases xs.len(),
{
    if xs.len() == 0 {
        Seq::empty()
    } else if xs.len() == 1 {
        xs[0]
    } else {
        join(xs.drop_last(), sep) + sep + xs.last()
    }
}

/// Lean text of a tactic.
pub open spec fn render(t: TacticModel) -> Seq<char>
    decreases t,
{
    match t {
        TacticModel::Decide => "decide"@,
        TacticModel::NativeDecide => "native_decide"@,
        TacticModel::Simp => "simp"@,
        TacticModel::SimpWith(ls) => if ls.len() == 0 {
            "simp"@
        } else {
            "simp ["@ + join(ls, ", "@) + "]"@
        },
        TacticModel::Omega => "omega"@,
        TacticModel::Ring => "ring"@,
        TacticModel::NormNum => "norm_num"@,
        TacticModel::Linarith => "linarith"@,
        TacticModel::Intro(n) => "intro "@ + n,
        TacticModel::Apply(l) => "apply "@ + l,
        TacticModel::Exact(e) => "exact "@ + e,
        TacticModel::Constructor => "constructor"@,
        TacticModel::Cases(x) => "cases "@ + x,
        TacticModel::Induction(x) => "induction "@ + x,
        TacticModel::Have(stmt, subs) => "have "@ + stmt + " := by\n    "@ + render_join(
            subs,
            "\n    "@,
        ),
        TacticModel::Use(w) => "use "@ + w,
        TacticModel::Trivial => "trivial"@,
        TacticModel::Contradiction => "contradiction"@,
        TacticModel::Exfalso => "exfalso"@,
        TacticModel::Tauto => "tauto"@,
        TacticModel::Aesop => "aesop"@,
        TacticModel::Custom(s) => s,
    }
}

/// Lean texts of tactics joined with a separator.
pub open spec fn render_join(ts: Seq<TacticModel>, sep: Seq<char>) -> Seq<char>
    decreases ts,
{
    if ts.len() == 0 {
        Seq::empty()
    } else if ts.len() == 1 {
        render(ts[0])
    } else {
        render_join(ts.drop_last(), sep) + sep + render(ts.last())
    }
}

/// Complexity score of a tactic: lower is simpler and tried first.
pub open spec fn complexity_of(t: TacticModel) -> u32 {
    match t {
        TacticModel::Trivial | TacticModel::Decide => 1,
        TacticModel::NativeDecide | TacticModel::Simp | TacticModel::Omega | TacticModel::NormNum
        | TacticModel::Tauto => 2,
        TacticModel::Ring | TacticModel::Linarith | TacticModel::Constructor
        | TacticModel::Contradiction | TacticModel::Exfalso | TacticModel::Aesop => 3,
        TacticModel::Intro(_) | TacticModel::Apply(_) | TacticModel::Exact(_) | TacticModel::Cases(_)
        | TacticModel::Use(_) => 4,
        TacticModel::SimpWith(_) => 5,
        TacticModel::Induction(_) => 6,
        TacticModel::Have(_, _) => 8,
        TacticModel::Custom(_) => 10,
    }
}

/// Total complexity of a script.
pub open spec fn total_complexity(ts: Seq<TacticModel>) -> nat
    decreases ts.len(),
{
    if ts.len() == 0 {
        0
    } else {
        total_complexity(ts.drop_last()) + (complexity_of(ts.last()) as nat)
    }
}

fn concat2(a: &str, b: &str) -> (r: String)
    ensures
        r@ == a@ + b@,
{
    String::from_str(a).concat(b)
}

fn join_strings(xs: &Vec<String>, sep: &str) -> (r: String)
    ensures
        r@ == join(strs(xs@), sep@),
{
    let ghost ss = strs(xs@);
    if xs.len() == 0 {
        return String::new();
    }
    let mut out = xs[0].clone();
    assert(ss.take(1).drop_last() =~= Seq::<Seq<char>>::empty());
    let mut i: usize = 1;
    while i < xs.len()
        invariant
            1 <= i <= xs@.len(),
            ss == strs(xs@),
            out@ == join(ss.take(i as int), sep@),
        decreases xs@.len() - i,
    {
        assert(ss.take(i as int + 1).drop_last() =~= ss.take(i as int));
        out = out.concat(sep).concat(xs[i].as_str());
        i = i + 1;
    }
    assert(ss.take(i as int) =~= ss);
    out
}

impl Tactic {
    /// Render as Lean tactic text.
    pub fn to_lean(&self) -> (r: String)
        ensures
            r@ == render(self@),
        decreases self,
    {
        match self {
            Tactic::Decide => "decide".to_string(),
            Tactic::NativeDecide => "native_decide".to_string(),
            Tactic::Simp => "simp".to_string(),
            Tactic::SimpWith(lemmas) => {
                if lemmas.len() == 0 {
                    "simp".to_string()
                } else {
                    concat2("simp [", join_strings(lemmas, ", ").as_str()).concat("]")
                }
            },
            Tactic::Omega => "omega".to_string(),
            Tactic::Ring => "ring".to_string(),
            Tactic::NormNum => "norm_num".to_string(),
            Tactic::Linarith => "linarith".to_string(),
            Tactic::Intro(name) => concat2("intro ", name.as_str()),
            Tactic::Apply(lemma) => concat2("apply ", lemma.as_str()),
            Tactic::Exact(term) => concat2("exact ", term.as_str()),
            Tactic::Constructor => "constructor".to_string(),
            Tactic::Cases(target) => concat2("cases ", target.as_str()),
            Tactic::Induction(var) => concat2("induction ", var.as_str()),
            Tactic::Have(stmt, sub_tactics) => {
                let sub = render_all(sub_tactics, "\n    ");
                proof {
                    assert(self@->Have_1 =~= tactics(sub_tactics@));
                }
                concat2("have ", stmt.as_str()).concat(" := by\n    ").concat(sub.as_str())
            },
            Tactic::Use(witness) => concat2("use ", witness.as_str()),
            Tactic::Trivial => "trivial".to_string(),
            Tactic::Contradiction => "contradiction".to_string(),
            Tactic::Exfalso => "exfalso".to_string(),
            Tactic::Tauto => "tauto".to_string(),
            Tactic::Aesop => "aesop".to_string(),
            Tactic::Custom(s) => s.clone(),
        }
    }

    /// Complexity score: lower is simpler and tried first.
    pub fn complexity(&self) -> (c: u32)
        ensures
            c == complexity_of(self@),
    {
        match self {
            Tactic::Trivial | Tactic::Decide => 1,
            Tactic::NativeDecide | Tactic::Simp | Tactic::Omega | Tactic::NormNum | Tactic::Tauto => 2,
            Tactic::Ring | Tactic::Linarith | Tactic::Constructor | Tactic::Contradiction
            | Tactic::Exfalso | Tactic::Aesop => 3,
            Tactic::Intro(_) | Tactic::Apply(_) | Tactic::Exact(_) | Tactic::Cases(_) | Tactic::Use(_) => 4,
            Tactic::SimpWith(_) => 5,
            Tactic::Induction(_) => 6,
            Tactic::Have(_, _) => 8,
            Tactic::Custom(_) => 10,
        }
    }
}

/// Render tactics joined with a separator.
fn render_all(ts: &Vec<Tactic>, sep: &str) -> (r: String)
    ensures
        r@ == render_join(tactics(ts@), sep@),
    decreases ts,
{
    let ghost ms = tactics(ts@);
    if ts.len() == 0 {
        return String::new();
    }
    let mut out = ts[0].to_lean();
    assert(ms.take(1).drop_last() =~= Seq::<TacticModel>::empty());
    assert(ms.take(1)[0] == ms[0]);
    let mut i: usize = 1;
    while i < ts.len()
        invariant
            1 <= i <= ts@.len(),
            ms == tactics(ts@),
            out@ == render_join(ms.take(i as int), sep@),
        decreases ts@.len() - i,
    {
        assert(ms.take(i as int + 1).drop_last() =~= ms.take(i as int));
        assert(ms[i as int] == ts@[i as int]@);
        let piece = ts[i].to_lean();
        out = out.concat(sep).concat(piece.as_str());
        i = i + 1;
    }
    assert(ms.take(i as int) =~= ms);
    out
}

/// A proof candidate: a sequence of tactics and its position in the
/// enumeration.
#[derive(Debug)]
pub struct ProofCandidate {
    /// The tactics, in order.
    pub tactics: Vec<Tactic>,
    /// Position in the enumeration.
    pub rank: u64,
}

impl ProofCandidate {
    /// Total complexity of the tactics.
    pub fn complexity(&self) -> (c: u32)
        requires
            total_complexity(tactics(self.tactics@)) <= u32::MAX,
        ensures
            c == total_complexity(tactics(self.tactics@)),
    {
        let ghost ms = tactics(self.tactics@);
        let mut total: u32 = 0;
        let mut i: usize = 0;
        while i < self.tactics.len()
            invariant
                i <= self.tactics@.len(),
                ms == tactics(self.tactics@),
                total_complexity(ms) <= u32::MAX,
                total == total_complexity(ms.take(i as int)),
            decreases self.tactics@.len() - i,
        {
            assert(ms.take(i as int + 1).drop_last() =~= ms.take(i as int));
            assert(ms[i as int] == self.tactics@[i as int]@);
            proof {
                lemma_total_complexity_prefix(ms, i as int + 1);
            }
            total = total + self.tactics[i].complexity();
            i = i + 1;
        }
        assert(ms.take(i as int) =~= ms);
        total
    }

    /// The tactics as a Lean tactic block, one per line.
    pub fn to_lean_tactics(&self) -> (r: String)
        ensures
            r@ == render_join(tactics(self.tactics@), "\n  "@),
    {
        render_all(&self.tactics, "\n  ")
    }
}

proof fn lemma_total_complexity_prefix(ms: Seq<TacticModel>, k: int)
    requires
        0 <= k <= ms.len(),
    ensures
        total_complexity(ms.take(k)) <= total_complexity(ms),
    decreases ms.len(),
{
    if k == ms.len() {
        assert(ms.take(k) =~= ms);
    } else {
        assert(ms.drop_last().take(k) =~= ms.take(k));
        lemma_total_complexity_prefix(ms.drop_last(), k);
    }
}

// ── The canonical enumeration ───────────────────────────────────────────

/// The single automation tactics, in order.
pub open spec fn singles() -> Seq<TacticModel> {
    seq![TacticModel::Trivial, TacticModel::Decide, TacticModel::NativeDecide, TacticModel::Simp, TacticModel::Omega, TacticModel::NormNum, TacticModel::Tauto, TacticModel::Ring, TacticModel::Linarith, TacticModel::Contradiction, TacticModel::Exfalso, TacticModel::Aesop, TacticModel::Constructor]
}

/// Names for `intro`.
pub open spec fn intro_names() -> Seq<Seq<char>> {
    seq!["n"@, "h"@, "x"@, "p"@, "a"@, "b"@]
}

/// Variables for induction.
pub open spec fn induction_vars() -> Seq<Seq<char>> {
    seq!["n"@, "x"@, "k"@]
}

/// Closing tactics after induction.
pub open spec fn induction_finishers() -> Seq<Seq<char>> {
    seq!["all_goals simp"@, "all_goals omega"@, "all_goals aesop"@]
}

/// Terms for `exact`.
pub open spec fn exact_terms() -> Seq<Seq<char>> {
    seq!["Nat.zero_ne_one"@, "Nat.zero_ne_one.symm"@, "absurd"@, "rfl"@, "True.intro"@]
}

/// Decimal digits.
pub open spec fn digits() -> Seq<Seq<char>> {
    seq!["0"@, "1"@, "2"@, "3"@, "4"@, "5"@, "6"@, "7"@, "8"@, "9"@]
}

/// Level 1: one single tactic.
pub open spec fn level1() -> Seq<Seq<TacticModel>> {
    Seq::new(13, |k: int| seq![singles()[k]])
}

/// Level 2: intro of a name, then a single tactic.
pub open spec fn level2() -> Seq<Seq<TacticModel>> {
    Seq::new(78, |k: int| seq![TacticModel::Intro(intro_names()[k / 13]), singles()[k % 13]])
}

/// The second name of the `p`-th ordered pair of distinct names.
pub open spec fn second_name(p: int) -> int {
    if p % 5 < p / 5 {
        p % 5
    } else {
        p % 5 + 1
    }
}

/// Level 3: intros of two distinct names, then a single tactic.
pub open spec fn level3() -> Seq<Seq<TacticModel>> {
    Seq::new(
        390,
        |k: int|
            seq![
                TacticModel::Intro(intro_names()[k / 13 / 5]),
                TacticModel::Intro(intro_names()[second_name(k / 13)]),
                singles()[k % 13],
            ],
    )
}

/// Level 4: simp with one common lemma.
pub open spec fn level4() -> Seq<Seq<TacticModel>> {
    seq![
        seq![TacticModel::SimpWith(seq!["Nat.Prime"@])],
        seq![TacticModel::SimpWith(seq!["Nat.add_comm"@])],
        seq![TacticModel::SimpWith(seq!["Nat.mul_comm"@])],
    ]
}

/// Level 5: induction, then a closing tactic on all goals.
pub open spec fn level5() -> Seq<Seq<TacticModel>> {
    Seq::new(
        9,
        |k: int|
            seq![
                TacticModel::Induction(induction_vars()[k / 3]),
                TacticModel::Custom(induction_finishers()[k % 3]),
            ],
    )
}

/// The tactics that close a constructor pattern.
pub open spec fn constructor_closers() -> Seq<TacticModel> {
    seq![TacticModel::Trivial, TacticModel::Simp, TacticModel::Omega]
}

/// Level 6: intro, constructor, then trivial, simp or omega.
pub open spec fn level6() -> Seq<Seq<TacticModel>> {
    Seq::new(
        9,
        |k: int|
            seq![
                TacticModel::Intro(intro_names()[k / 3]),
                TacticModel::Constructor,
                constructor_closers()[k % 3],
            ],
    )
}

/// Level 7: exact with a common term.
pub open spec fn level7() -> Seq<Seq<TacticModel>> {
    Seq::new(5, |k: int| seq![TacticModel::Exact(exact_terms()[k])])
}

/// Level 8: use with a witness from 0 to 9.
pub open spec fn level8() -> Seq<Seq<TacticModel>> {
    Seq::new(10, |k: int| seq![TacticModel::Use(digits()[k])])
}

/// Level 9: intro, use with a witness from 0 to 4, then simp.
pub open spec fn level9() -> Seq<Seq<TacticModel>> {
    Seq::new(
        15,
        |k: int|
            seq![
                TacticModel::Intro(intro_names()[k / 5]),
                TacticModel::Use(digits()[k % 5]),
                TacticModel::Simp,
            ],
    )
}

/// The whole enumeration, in canonical order.
pub open spec fn enumeration() -> Seq<Seq<TacticModel>> {
    level1() + level2() + level3() + level4() + level5() + level6() + level7() + level8() + level9()
}

/// Models of a vector of scripts.
pub open spec fn scripts(v: Seq<Vec<Tactic>>) -> Seq<Seq<TacticModel>> {
    Seq::new(v.len(), |i: int| tactics(v[i]@))
}

fn single(k: usize) -> (t: Tactic)
    requires
        k < 13,
    ensures
        t@ == singles()[k as int],
{
    match k {
        0 => Tactic::Trivial,
        1 => Tactic::Decide,
        2 => Tactic::NativeDecide,
        3 => Tactic::Simp,
        4 => Tactic::Omega,
        5 => Tactic::NormNum,
        6 => Tactic::Tauto,
        7 => Tactic::Ring,
        8 => Tactic::Linarith,
        9 => Tactic::Contradiction,
        10 => Tactic::Exfalso,
        11 => Tactic::Aesop,
        _ => Tactic::Constructor,
    }
}

fn pick(k: usize, lits: &Vec<&str>) -> (r: String)
    requires
        k < lits@.len(),
    ensures
        r@ == lits@[k as int]@,
{
    lits[k].to_string()
}

fn intro_name_lits() -> (v: Vec<&'static str>)
    ensures
        v@.len() == 6,
        forall|i: int| 0 <= i < 6 ==> #[trigger] v@[i]@ == intro_names()[i],
{
    let v = vec!["n", "h", "x", "p", "a", "b"];
    assert(v@ =~= seq!["n", "h", "x", "p", "a", "b"]);
    v
}

fn digit_lits() -> (v: Vec<&'static str>)
    ensures
        v@.len() == 10,
        forall|i: int| 0 <= i < 10 ==> #[trigger] v@[i]@ == digits()[i],
{
    let v = vec!["0", "1", "2", "3", "4", "5", "6", "7", "8", "9"];
    assert(v@ =~= seq!["0", "1", "2", "3", "4", "5", "6", "7", "8", "9"]);
    v
}

fn one(t: Tactic) -> (v: Vec<Tactic>)
    ensures
        tactics(v@) == seq![t@],
{
    let v = vec![t];
    assert(tactics(v@) =~= seq![t@]);
    v
}

fn two(a: Tactic, b: Tactic) -> (v: Vec<Tactic>)
    ensures
        tactics(v@) == seq![a@, b@],
{
    let v = vec![a, b];
    assert(tactics(v@) =~= seq![a@, b@]);
    v
}

fn three(a: Tactic, b: Tactic, c: Tactic) -> (v: Vec<Tactic>)
    ensures
        tactics(v@) == seq![a@, b@, c@],
{
    let v = vec![a, b, c];
    assert(tactics(v@) =~= seq![a@, b@, c@]);
    v
}

fn push_script(c: &mut Vec<Vec<Tactic>>, v: Vec<Tactic>)
    ensures
        scripts(final(c)@) == scripts(old(c)@).push(tactics(v@)),
{
    let ghost before = c@;
    c.push(v);
    assert(scripts(c@) =~= scripts(before).push(tactics(v@)));
}

proof fn lemma_take_push<A>(s: Seq<A>, base: Seq<A>, k: int)
    requires
        0 <= k < s.len(),
    ensures
        (base + s.take(k)).push(s[k]) == base + s.take(k + 1),
{
    assert((base + s.take(k)).push(s[k]) =~= base + s.take(k + 1));
}

/// The canonical enumeration of tactic scripts.
pub struct CandidateEnumerator {
    candidates: Vec<Vec<Tactic>>,
}

impl CandidateEnumerator {
    /// The scripts, in enumeration order.
    pub closed spec fn scripts(&self) -> Seq<Seq<TacticModel>> {
        scripts(self.candidates@)
    }

    /// Build the canonical enumeration.
    pub fn new() -> (e: CandidateEnumerator)
        ensures
            e.scripts() == enumeration(),
    {
        let names = intro_name_lits();
        let digit_strs = digit_lits();
        let mut c: Vec<Vec<Tactic>> = Vec::new();
        assert(scripts(c@) =~= Seq::<Seq<TacticModel>>::empty());
        // Level 1
        let ghost base = Seq::<Seq<TacticModel>>::empty();
        let mut k: usize = 0;
        while k < 13
            invariant
                k <= 13,
                scripts(c@) == base + level1().take(k as int),
            decreases 13 - k,
        {
            let v = one(single(k));
            proof {
                lemma_take_push(level1(), base, k as int);
            }
            push_script(&mut c, v);
            k = k + 1;
        }
        // Level 2
        let ghost base = base + level1();
        assert(level1().take(13) =~= level1());
        assert(scripts(c@) =~= base + level2().take(0));
        let mut k: usize = 0;
        while k < 78
            invariant
                k <= 78,
                names@.len() == 6,
                forall|i: int| 0 <= i < 6 ==> #[trigger] names@[i]@ == intro_names()[i],
                scripts(c@) == base + level2().take(k as int),
            decreases 78 - k,
        {
            let v = two(Tactic::Intro(pick(k / 13, &names)), single(k % 13));
            proof {
                lemma_take_push(level2(), base, k as int);
            }
            push_script(&mut c, v);
            k = k + 1;
        }
        // Level 3
        let ghost base = base + level2();
        assert(level2().take(78) =~= level2());
        assert(scripts(c@) =~= base + level3().take(0));
        let mut k: usize = 0;
        while k < 390
            invariant
                k <= 390,
                names@.len() == 6,
                forall|i: int| 0 <= i < 6 ==> #[trigger] names@[i]@ == intro_names()[i],
                scripts(c@) == base + level3().take(k as int),
            decreases 390 - k,
        {
            let p = k / 13;
            let j = if p % 5 < p / 5 {
                p % 5
            } else {
                p % 5 + 1
            };
            let v = three(
                Tactic::Intro(pick(p / 5, &names)),
                Tactic::Intro(pick(j, &names)),
                single(k % 13),
            );
            proof {
                lemma_take_push(level3(), base, k as int);
            }
            push_script(&mut c, v);
            k = k + 1;
        }
        // Level 4
        let ghost base = base + level3();
        assert(level3().take(390) =~= level3());
        let mut lemmas = Vec::new();
        lemmas.push("Nat.Prime".to_string());
        assert(strs(lemmas@) =~= seq!["Nat.Prime"@]);
        push_script(&mut c, one(Tactic::SimpWith(lemmas)));
        let mut lemmas = Vec::new();
        lemmas.push("Nat.add_comm".to_string());
        assert(strs(lemmas@) =~= seq!["Nat.add_comm"@]);
        push_script(&mut c, one(Tactic::SimpWith(lemmas)));
        let mut lemmas = Vec::new();
        lemmas.push("Nat.mul_comm".to_string());
        assert(strs(lemmas@) =~= seq!["Nat.mul_comm"@]);
        push_script(&mut c, one(Tactic::SimpWith(lemmas)));
        assert(scripts(c@) =~= base + level4());
        // Level 5
        let ghost base = base + level4();
        assert(scripts(c@) =~= base + level5().take(0));
        let vars = vec!["n", "x", "k"];
        assert(vars@ =~= seq!["n", "x", "k"]);
        let finishers = vec!["all_goals simp", "all_goals omega", "all_goals aesop"];
        assert(finishers@ =~= seq!["all_goals simp", "all_goals omega", "all_goals aesop"]);
        let mut k: usize = 0;
        while k < 9
            invariant
                k <= 9,
                vars@ == seq!["n", "x", "k"],
                finishers@ == seq!["all_goals simp", "all_goals omega", "all_goals aesop"],
                scripts(c@) == base + level5().take(k as int),
            decreases 9 - k,
        {
            let v = two(
                Tactic::Induction(pick(k / 3, &vars)),
                Tactic::Custom(pick(k % 3, &finishers)),
            );
            proof {
                lemma_take_push(level5(), base, k as int);
            }
            push_script(&mut c, v);
            k = k + 1;
        }
        // Level 6
        let ghost base = base + level5();
        assert(level5().take(9) =~= level5());
        assert(scripts(c@) =~= base + level6().take(0));
        let mut k: usize = 0;
        while k < 9
            invariant
                k <= 9,
                names@.len() == 6,
                forall|i: int| 0 <= i < 6 ==> #[trigger] names@[i]@ == intro_names()[i],
                scripts(c@) == base + level6().take(k as int),
            decreases 9 - k,
        {
            let closer = if k % 3 == 0 {
                Tactic::Trivial
            } else if k % 3 == 1 {
                Tactic::Simp
            } else {
                Tactic::Omega
            };
            let v = three(Tactic::Intro(pick(k / 3, &names)), Tactic::Constructor, closer);
            proof {
                lemma_take_push(level6(), base, k as int);
            }
            push_script(&mut c, v);
            k = k + 1;
        }
        // Level 7
        let ghost base = base + level6();
        assert(level6().take(9) =~= level6());
        assert(scripts(c@) =~= base + level7().take(0));
        let terms = vec!["Nat.zero_ne_one", "Nat.zero_ne_one.symm", "absurd", "rfl", "True.intro"];
        assert(terms@ =~= seq!["Nat.zero_ne_one", "Nat.zero_ne_one.symm", "absurd", "rfl", "True.intro"]);
        let mut k: usize = 0;
        while k < 5
            invariant
                k <= 5,
                terms@ == seq!["Nat.zero_ne_one", "Nat.zero_ne_one.symm", "absurd", "rfl", "True.intro"],
                scripts(c@) == base + level7().take(k as int),
            decreases 5 - k,
        {
            let v = one(Tactic::Exact(pick(k, &terms)));
            proof {
                lemma_take_push(level7(), base, k as int);
            }
            push_script(&mut c, v);
            k = k + 1;
        }
        // Level 8
        let ghost base = base + level7();
        assert(level7().take(5) =~= level7());
        assert(scripts(c@) =~= base + level8().take(0));
        let mut k: usize = 0;
        while k < 10
            invariant
                k <= 10,
                digit_strs@.len() == 10,
                forall|i: int| 0 <= i < 10 ==> #[trigger] digit_strs@[i]@ == digits()[i],
                scripts(c@) == base + level8().take(k as int),
            decreases 10 - k,
        {
            let v = one(Tactic::Use(pick(k, &digit_strs)));
            proof {
                lemma_take_push(level8(), base, k as int);
            }
            push_script(&mut c, v);
            k = k + 1;
        }
        // Level 9
        let ghost base = base + level8();
        assert(level8().take(10) =~= level8());
        assert(scripts(c@) =~= base + level9().take(0));
        let mut k: usize = 0;
        while k < 15
            invariant
                k <= 15,
                names@.len() == 6,
                forall|i: int| 0 <= i < 6 ==> #[trigger] names@[i]@ == intro_names()[i],
                digit_strs@.len() == 10,
                forall|i: int| 0 <= i < 10 ==> #[trigger] digit_strs@[i]@ == digits()[i],
                scripts(c@) == base + level9().take(k as int),
            decreases 15 - k,
        {
            let v = three(
                Tactic::Intro(pick(k / 5, &names)),
                Tactic::Use(pick(k % 5, &digit_strs)),
                Tactic::Simp,
            );
            proof {
                lemma_take_push(level9(), base, k as int);
            }
            push_script(&mut c, v);
            k = k + 1;
        }
        assert(level9().take(15) =~= level9());
        assert(scripts(c@) =~= enumeration());
        CandidateEnumerator { candidates: c }
    }

    /// Number of scripts in the enumeration.
    pub fn total(&self) -> (n: u64)
        ensures
            n == self.scripts().len(),
    {
        self.candidates.len() as u64
    }

    /// The candidates of rank below `max_rank`, in order.
    pub fn iter_up_to(&self, max_rank: u64) -> (r: Vec<ProofCandidate>)
        ensures
            r@.len() == if (max_rank as usize) < self.scripts().len() {
                max_rank as usize as int
            } else {
                self.scripts().len() as int
            },
            forall|i: int|
                #![trigger r@[i]]
                0 <= i < r@.len() ==> r@[i].rank == i && tactics(r@[i].tactics@) == self.scripts()[i],
    {
        let n = self.candidates.len();
        let m = max_rank as usize;
        let limit = if m < n {
            m
        } else {
            n
        };
        let mut out: Vec<ProofCandidate> = Vec::new();
        let mut i: usize = 0;
        while i < limit
            invariant
                i <= limit <= n,
                n == self.candidates@.len(),
                out@.len() == i,
                forall|j: int|
                    0 <= j < i ==> #[trigger] out@[j].rank == j && tactics(out@[j].tactics@)
                        == scripts(self.candidates@)[j],
            decreases limit - i,
        {
            let ts = clone_script(&self.candidates[i]);
            assert(scripts(self.candidates@)[i as int] == tactics(self.candidates@[i as int]@));
            let ghost before = out@;
            out.push(ProofCandidate { tactics: ts, rank: i as u64 });
            assert(forall|j: int| 0 <= j < i ==> out@[j] == before[j]);
            i = i + 1;
        }
        assert(self.scripts() == scripts(self.candidates@));
        assert forall|j: int| #![trigger out@[j]] 0 <= j < out@.len() implies out@[j].rank == j
            && tactics(out@[j].tactics@) == self.scripts()[j] by {
            assert(0 <= j < i);
            assert(out@[j].rank == j);
            assert(tactics(out@[j].tactics@) == scripts(self.candidates@)[j]);
        }
        out
    }
}

fn clone_strings(v: &Vec<String>) -> (r: Vec<String>)
    ensures
        strs(r@) == strs(v@),
{
    let mut out: Vec<String> = Vec::new();
    let mut i: usize = 0;
    while i < v.len()
        invariant
            i <= v@.len(),
            out@.len() == i,
            strs(out@) == strs(v@).take(i as int),
        decreases v@.len() - i,
    {
        let ghost before = out@;
        out.push(v[i].clone());
        assert(strs(out@) =~= strs(v@).take(i as int + 1)) by {
            assert(strs(before) == strs(v@).take(i as int));
        }
        i = i + 1;
    }
    assert(strs(v@).take(i as int) =~= strs(v@));
    out
}

impl Clone for Tactic {
    /// A deep copy with the same model.
    fn clone(&self) -> (r: Self)
        ensures
            r@ == self@,
        decreases self,
    {
        match self {
            Tactic::Decide => Tactic::Decide,
            Tactic::NativeDecide => Tactic::NativeDecide,
            Tactic::Simp => Tactic::Simp,
            Tactic::SimpWith(ls) => Tactic::SimpWith(clone_strings(ls)),
            Tactic::Omega => Tactic::Omega,
            Tactic::Ring => Tactic::Ring,
            Tactic::NormNum => Tactic::NormNum,
            Tactic::Linarith => Tactic::Linarith,
            Tactic::Intro(s) => Tactic::Intro(s.clone()),
            Tactic::Apply(s) => Tactic::Apply(s.clone()),
            Tactic::Exact(s) => Tactic::Exact(s.clone()),
            Tactic::Constructor => Tactic::Constructor,
            Tactic::Cases(s) => Tactic::Cases(s.clone()),
            Tactic::Induction(s) => Tactic::Induction(s.clone()),
            Tactic::Have(s, subs) => {
                let v = clone_script(subs);
                let r = Tactic::Have(s.clone(), Box::new(v));
                proof {
                    assert(self@->Have_1 =~= tactics(subs@));
                    assert(r@->Have_1 =~= tactics(v@));
                }
                r
            },
            Tactic::Use(s) => Tactic::Use(s.clone()),
            Tactic::Trivial => Tactic::Trivial,
            Tactic::Contradiction => Tactic::Contradiction,
            Tactic::Exfalso => Tactic::Exfalso,
            Tactic::Tauto => Tactic::Tauto,
            Tactic::Aesop => Tactic::Aesop,
            Tactic::Custom(s) => Tactic::Custom(s.clone()),
        }
    }
}

fn clone_script(v: &Vec<Tactic>) -> (r: Vec<Tactic>)
    ensures
        tactics(r@) == tactics(v@),
    decreases v,
{
    let mut out: Vec<Tactic> = Vec::new();
    let mut i: usize = 0;
    while i < v.len()
        invariant
            i <= v@.len(),
            out@.len() == i,
            tactics(out@) == tactics(v@).take(i as int),
        decreases v@.len() - i,
    {
        let t = v[i].clone();
        let ghost before = out@;
        out.push(t);
        assert(tactics(out@) =~= tactics(v@).take(i as int + 1)) by {
            assert(tactics(before) == tactics(v@).take(i as int));
        }
        i = i + 1;
    }
    assert(tactics(v@).take(i as int) =~= tactics(v@));
    out
}

} // verus!
