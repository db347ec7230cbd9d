//! The pure parts of checking a witness with Lean: which witnesses are
//! scripts worth checking, the Lean file written for a script, and the
//! defence against `sorry`. Writing the file and running `lake build` is
//! left to the caller.

use super::candidate::join;
use super::core_term::string_from_utf8;
use super::statement::{ProofStatement, StatementModel};
use super::text::{lemma_take_step_char, split_on, trim, trim_str};
use super::witness::{nth_witness, WitnessEnumerator};
use vstd::prelude::*;
use vstd::utf8::{decode_utf8, valid_utf8};

verus! {

broadcast use vstd::string::group_string_axioms;

/// ASCII letters and digits.
pub open spec fn is_ascii_alnum(c: char) -> bool {
    ('0' <= c <= '9') || ('a' <= c <= 'z') || ('A' <= c <= 'Z')
}

/// `sorry` occurs at character `k` of `t` as a standalone word.
pub open spec fn sorry_at(t: Seq<char>, k: int) -> bool {
    &&& 0 <= k
    &&& k + 5 <= t.len()
    &&& t.subrange(k, k + 5) == "sorry"@
    &&& (k == 0 || !is_ascii_alnum(t[k - 1]))
    &&& (k + 5 == t.len() || !is_ascii_alnum(t[k + 5]))
}

/// A trimmed line that is not a comment and holds a standalone `sorry`.
pub open spec fn line_has_sorry(t: Seq<char>) -> bool {
    &&& !(t.len() >= 2 && t.subrange(0, 2) == "--"@)
    &&& !(t.len() >= 2 && t.subrange(0, 2) == "/-"@)
    &&& exists|k: int| sorry_at(t, k)
}

/// Some line of the text holds a standalone `sorry` outside a comment.
pub open spec fn has_sorry(s: Seq<char>) -> bool {
    exists|j: int|
        0 <= j < split_on(s, '\n').len() && line_has_sorry(trim(#[trigger] split_on(s, '\n')[j]))
}

fn is_alnum(c: char) -> (b: bool)
    ensures
        b == is_ascii_alnum(c),
{
    ('0' <= c && c <= '9') || ('a' <= c && c <= 'z') || ('A' <= c && c <= 'Z')
}

fn line_check(t: &str) -> (b: bool)
    ensures
        b == line_has_sorry(t@),
{
    proof {
        reveal_strlit("sorry");
        reveal_strlit("--");
        reveal_strlit("/-");
    }
    assert("sorry"@ =~= seq!['s', 'o', 'r', 'r', 'y']);
    assert("--"@ =~= seq!['-', '-']);
    assert("/-"@ =~= seq!['/', '-']);
    let m = t.unicode_len();
    if m >= 2 {
        let c0 = t.get_char(0);
        let c1 = t.get_char(1);
        if (c0 == '-' && c1 == '-') || (c0 == '/' && c1 == '-') {
            assert(t@.subrange(0, 2) =~= seq![c0, c1]);
            return false;
        }
        assert(t@.subrange(0, 2) =~= seq![c0, c1]);
    }
    let mut k: usize = 0;
    while m >= 5 && k <= m - 5
        invariant
            k <= m,
            m == t@.len(),
            !(t@.len() >= 2 && t@.subrange(0, 2) == "--"@),
            !(t@.len() >= 2 && t@.subrange(0, 2) == "/-"@),
            forall|j: int| 0 <= j < k ==> !sorry_at(t@, j),
        decreases m - k,
    {
        let found = t.get_char(k) == 's' && t.get_char(k + 1) == 'o' && t.get_char(k + 2) == 'r'
            && t.get_char(k + 3) == 'r' && t.get_char(k + 4) == 'y';
        let ghost sub = t@.subrange(k as int, k + 5);
        proof {
            reveal_strlit("sorry");
            assert("sorry"@ =~= seq!['s', 'o', 'r', 'r', 'y']);
            if found {
                assert(sub =~= "sorry"@);
            } else if sub == "sorry"@ {
                assert(sub[0] == t@[k as int] && sub[1] == t@[k + 1] && sub[2] == t@[k + 2] && sub[3]
                    == t@[k + 3] && sub[4] == t@[k + 4]);
                assert(false);
            }
        }
        if found {
            let before_ok = k == 0 || !is_alnum(t.get_char(k - 1));
            let after_ok = k + 5 == m || !is_alnum(t.get_char(k + 5));
            if before_ok && after_ok {
                assert(sorry_at(t@, k as int));
                return true;
            }
        }
        k = k + 1;
    }
    assert forall|j: int| !sorry_at(t@, j) by {
        if 0 <= j < k {
        }
    }
    false
}

/// The completed pieces of a prefix are pieces of the whole text.
proof fn lemma_split_prefix(s: Seq<char>, sep: char, k: int)
    requires
        0 <= k <= s.len(),
    ensures
        split_on(s.take(k), sep).len() <= split_on(s, sep).len(),
        forall|j: int|
            0 <= j < split_on(s.take(k), sep).len() - 1 ==> #[trigger] split_on(s, sep)[j]
                == split_on(s.take(k), sep)[j],
    decreases s.len() - k,
{
    if k == s.len() {
        assert(s.take(k) =~= s);
    } else {
        lemma_take_step_char(s, k);
        lemma_split_prefix(s, sep, k + 1);
    }
}

/// Whether the text holds a standalone `sorry` outside a comment line.
pub fn contains_sorry(content: &str) -> (b: bool)
    ensures
        b == has_sorry(content@),
{
    let ghost s = content@;
    let n = content.unicode_len();
    let ghost mut done: Seq<Seq<char>> = Seq::empty();
    let mut start: usize = 0;
    let mut i: usize = 0;
    assert(s.take(0) =~= Seq::<char>::empty());
    assert(s.subrange(0, 0) =~= Seq::<char>::empty());
    while i < n
        invariant
            start <= i <= n,
            n == s.len(),
            s == content@,
            split_on(s.take(i as int), '\n') == done.push(s.subrange(start as int, i as int)),
            forall|j: int| 0 <= j < done.len() ==> !line_has_sorry(trim(#[trigger] done[j])),
        decreases n - i,
    {
        proof {
            lemma_take_step_char(s, i as int);
        }
        let c = content.get_char(i);
        if c == '\n' {
            let line = trim_str(content.substring_char(start, i));
            if line_check(line) {
                proof {
                    lemma_split_prefix(s, '\n', i + 1);
                    let pieces = split_on(s, '\n');
                    assert(pieces[done.len() as int] == s.subrange(start as int, i as int));
                }
                return true;
            }
            proof {
                done = done.push(s.subrange(start as int, i as int));
            }
            start = i + 1;
            assert(s.subrange(start as int, i as int + 1) =~= Seq::<char>::empty());
        } else {
            assert(s.subrange(start as int, i as int + 1) =~= s.subrange(start as int, i as int).push(c));
        }
        i = i + 1;
    }
    assert(s.take(n as int) =~= s);
    let line = trim_str(content.substring_char(start, n));
    let r = line_check(line);
    proof {
        let pieces = split_on(s, '\n');
        if !r {
            assert forall|j: int| 0 <= j < pieces.len() implies !line_has_sorry(
                trim(#[trigger] pieces[j]),
            ) by {
                if j < done.len() {
                    assert(pieces[j] == done[j]);
                }
            }
        } else {
            assert(pieces[done.len() as int] == s.subrange(start as int, n as int));
        }
    }
    r
}

/// Decimal digits of a number.
pub open spec fn decimal(n: nat) -> Seq<char>
    decreases n,
{
    if n < 10 {
        seq![digit_char(n)]
    } else {
        decimal(n / 10).push(digit_char(n % 10))
    }
}

pub open spec fn digit_char(d: nat) -> char {
    if d == 0 { '0' }
    else if d == 1 { '1' }
    else if d == 2 { '2' }
    else if d == 3 { '3' }
    else if d == 4 { '4' }
    else if d == 5 { '5' }
    else if d == 6 { '6' }
    else if d == 7 { '7' }
    else if d == 8 { '8' }
    else { '9' }
}

fn digit_str(d: u64) -> (s: &'static str)
    requires
        d < 10,
    ensures
        s@ == seq![digit_char(d as nat)],
{
    proof {
        reveal_strlit("0");
        reveal_strlit("1");
        reveal_strlit("2");
        reveal_strlit("3");
        reveal_strlit("4");
        reveal_strlit("5");
        reveal_strlit("6");
        reveal_strlit("7");
        reveal_strlit("8");
        reveal_strlit("9");
    }
    if d == 0 {
        "0"
    } else if d == 1 {
        "1"
    } else if d == 2 {
        "2"
    } else if d == 3 {
        "3"
    } else if d == 4 {
        "4"
    } else if d == 5 {
        "5"
    } else if d == 6 {
        "6"
    } else if d == 7 {
        "7"
    } else if d == 8 {
        "8"
    } else {
        "9"
    }
}

pub(crate) fn decimal_string(n: u64) -> (s: String)
    ensures
        s@ == decimal(n as nat),
    decreases n,
{
    if n < 10 {
        digit_str(n).to_string()
    } else {
        decimal_string(n / 10).concat(digit_str(n % 10))
    }
}

/// The import block of a witness file: one `import` line per module,
/// followed by a newline, or nothing.
pub open spec fn imports_text(imports: Seq<Seq<char>>) -> Seq<char> {
    if imports.len() == 0 {
        Seq::empty()
    } else {
        join(imports.map_values(|i: Seq<char>| "import "@ + i), "\n"@) + "\n"@
    }
}

/// The Lean file that checks `script` as a proof of the statement.
pub open spec fn witness_file(st: StatementModel, script: Seq<char>, rank: nat) -> Seq<char> {
    "-- Universal Proof Enumerator witness (rank "@ + decimal(rank) + ")\n"@ + imports_text(
        st.lean_imports,
    ) + "\nnamespace "@ + st.namespace + "\n\ntheorem proof_"@ + decimal(rank) + " : "@
        + st.lean_prop + " := by\n  "@ + script + "\n\nend "@ + st.namespace + "\n"@
}

fn imports_block(imports: &Vec<String>) -> (r: String)
    ensures
        r@ == imports_text(Seq::new(imports@.len(), |i: int| imports@[i]@)),
{
    let ghost xs = Seq::new(imports@.len(), |i: int| imports@[i]@);
    let ghost lines = xs.map_values(|i: Seq<char>| "import "@ + i);
    if imports.len() == 0 {
        return String::new();
    }
    let mut out = String::from_str("import ").concat(imports[0].as_str());
    assert(lines.take(1).drop_last() =~= Seq::<Seq<char>>::empty());
    let mut k: usize = 1;
    while k < imports.len()
        invariant
            1 <= k <= imports@.len(),
            xs == Seq::new(imports@.len(), |i: int| imports@[i]@),
            lines == xs.map_values(|i: Seq<char>| "import "@ + i),
            out@ == join(lines.take(k as int), "\n"@),
        decreases imports@.len() - k,
    {
        assert(lines.take(k as int + 1).drop_last() =~= lines.take(k as int));
        out = out.concat("\n").concat("import ").concat(imports[k].as_str());
        k = k + 1;
    }
    assert(lines.take(k as int) =~= lines);
    out.concat("\n")
}

/// The Lean file written to check `script` against the statement.
pub fn witness_file_content(statement: &ProofStatement, script: &str, rank: u64) -> (r: String)
    ensures
        r@ == witness_file(statement@, script@, rank as nat),
{
    let d = decimal_string(rank);
    let imports = imports_block(&statement.lean_imports);
    String::from_str("-- Universal Proof Enumerator witness (rank ").concat(d.as_str()).concat(
        ")\n",
    ).concat(imports.as_str()).concat("\nnamespace ").concat(statement.namespace.as_str()).concat(
        "\n\ntheorem proof_",
    ).concat(d.as_str()).concat(" : ").concat(statement.lean_prop.as_str()).concat(
        " := by\n  ",
    ).concat(script).concat("\n\nend ").concat(statement.namespace.as_str()).concat("\n")
}

/// The tactic script a witness stands for: its UTF-8 text, unless it is not
/// UTF-8 or is blank.
pub open spec fn witness_script(witness: Seq<u8>) -> Option<Seq<char>> {
    if valid_utf8(witness) && trim(decode_utf8(witness)).len() > 0 {
        Some(decode_utf8(witness))
    } else {
        None
    }
}

/// The script to check for a witness, if there is one.
pub fn candidate_script(witness: &Vec<u8>) -> (r: Option<String>)
    ensures
        match witness_script(witness@) {
            None => r is None,
            Some(s) => r matches Some(t) && t@ == s,
        },
{
    let mut bytes: Vec<u8> = Vec::new();
    let mut i: usize = 0;
    while i < witness.len()
        invariant
            i <= witness@.len(),
            bytes@ == witness@.take(i as int),
        decreases witness@.len() - i,
    {
        bytes.push(witness[i]);
        i = i + 1;
        assert(bytes@ =~= witness@.take(i as int));
    }
    assert(witness@.take(i as int) =~= witness@);
    match string_from_utf8(bytes) {
        None => None,
        Some(s) => {
            let t = trim_str(s.as_str());
            if t.unicode_len() == 0 {
                None
            } else {
                Some(s)
            }
        },
    }
}

/// The search for a script, from the witness at `rank` with `checked`
/// witnesses counted so far and `max_len` the longest seen: the rank of the
/// next witness that is a script, if one comes before `limit` witnesses
/// are counted, with the count and the longest length at that point.
pub open spec fn script_search(rank: nat, checked: nat, max_len: nat, limit: nat) -> (Option<nat>, nat, nat)
    decreases limit - checked,
{
    if checked >= limit {
        (None, checked, max_len)
    } else {
        let w = nth_witness(rank);
        let ml = if w.len() > max_len {
            w.len()
        } else {
            max_len
        };
        if witness_script(w) is Some {
            (Some(rank), checked, ml)
        } else {
            script_search(rank + 1, checked + 1, ml, limit)
        }
    }
}

/// What the search asks for next.
pub enum SolveStep {
    /// Check this script with Lean; report a rejection before asking again.
    Check { rank: u64, witness: Vec<u8>, script: String },
    /// The budget of witnesses is spent.
    Exhausted { witnesses_checked: u64, max_length_reached: usize },
}

/// The state of a search for a proof script through the enumeration of all
/// byte strings, stopping after `max_witnesses` have been counted. Lean is
/// run by the caller on each script the search hands out.
pub struct SolveSearch {
    enumerator: WitnessEnumerator,
    checked: u64,
    max_len: usize,
    max_witnesses: u64,
    awaiting: bool,
}

impl SolveSearch {
    /// The counts agree with the enumeration.
    pub closed spec fn wf(&self) -> bool {
        &&& self.checked <= self.max_witnesses
        &&& (self.awaiting ==> self.checked < self.max_witnesses)
        &&& self.enumerator.spec_rank() == self.checked + (if self.awaiting {
            1nat
        } else {
            0nat
        })
        &&& self.enumerator.current() == nth_witness(self.enumerator.spec_rank())
    }

    /// Rank of the next witness to look at.
    pub closed spec fn next_rank(&self) -> nat {
        self.enumerator.spec_rank()
    }

    /// Witnesses counted so far.
    pub closed spec fn checked(&self) -> nat {
        self.checked as nat
    }

    /// Longest witness seen so far.
    pub closed spec fn max_len(&self) -> nat {
        self.max_len as nat
    }

    /// The budget of witnesses.
    pub closed spec fn limit(&self) -> nat {
        self.max_witnesses as nat
    }

    /// A script was handed out and its verdict is due.
    pub closed spec fn awaiting(&self) -> bool {
        self.awaiting
    }

    /// A search that starts from the empty string.
    pub fn new(max_witnesses: u64) -> (s: SolveSearch)
        ensures
            s.next_rank() == 0,
            s.checked() == 0,
            s.max_len() == 0,
            s.limit() == max_witnesses,
            !s.awaiting(),
            s.wf(),
    {
        let enumerator = WitnessEnumerator::new();
        proof {
            assert(enumerator.current() == nth_witness(0));
        }
        SolveSearch { enumerator, checked: 0, max_len: 0, max_witnesses, awaiting: false }
    }

    /// Lean rejected the script handed out last: count it.
    pub fn record_rejection(&mut self)
        requires
            old(self).wf(),
            old(self).awaiting(),
        ensures
            final(self).wf(),
            !final(self).awaiting(),
            final(self).checked() == old(self).checked() + 1,
            final(self).next_rank() == old(self).next_rank(),
            final(self).max_len() == old(self).max_len(),
            final(self).limit() == old(self).limit(),
    {
        self.checked = self.checked + 1;
        self.awaiting = false;
    }

    /// Move through the enumeration, counting the witnesses that are not
    /// scripts, to the next script while the budget lasts.
    pub fn next_candidate(&mut self) -> (r: SolveStep)
        requires
            old(self).wf(),
            !old(self).awaiting(),
        ensures
            final(self).wf(),
            final(self).checked() == script_search(
                old(self).next_rank(),
                old(self).checked(),
                old(self).max_len(),
                old(self).limit(),
            ).1,
            final(self).max_len() == script_search(
                old(self).next_rank(),
                old(self).checked(),
                old(self).max_len(),
                old(self).limit(),
            ).2,
            final(self).limit() == old(self).limit(),
            match script_search(old(self).next_rank(), old(self).checked(), old(self).max_len(), old(self).limit()).0 {
                Some(k) => r matches SolveStep::Check { rank, witness, script } && rank == k && witness@
                    == nth_witness(k) && witness_script(witness@) == Some(script@) && final(self).awaiting()
                    && final(self).next_rank() == k + 1,
                None => r matches SolveStep::Exhausted { witnesses_checked, max_length_reached }
                    && witnesses_checked == final(self).checked() && max_length_reached == final(self).max_len()
                    && !final(self).awaiting(),
            },
    {
        let ghost start = script_search(
            self.enumerator.spec_rank(),
            self.checked as nat,
            self.max_len as nat,
            self.max_witnesses as nat,
        );
        while self.checked < self.max_witnesses
            invariant
                self.wf(),
                !self.awaiting,
                script_search(
                    self.enumerator.spec_rank(),
                    self.checked as nat,
                    self.max_len as nat,
                    self.max_witnesses as nat,
                ) == start,
                self.max_witnesses == old(self).max_witnesses,
                start == script_search(
                    old(self).next_rank(),
                    old(self).checked(),
                    old(self).max_len(),
                    old(self).limit(),
                ),
            decreases self.max_witnesses - self.checked,
        {
            let ghost r0 = self.enumerator.spec_rank();
            let ghost c0 = self.checked as nat;
            let ghost ml0 = self.max_len as nat;
            let (rank, witness) = match self.enumerator.next() {
                Some(x) => x,
                None => (0, Vec::new()),
            };
            assert(rank == r0 && witness@ == nth_witness(r0));
            if witness.len() > self.max_len {
                self.max_len = witness.len();
            }
            assert(script_search(r0, c0, ml0, self.max_witnesses as nat) == if witness_script(
                witness@,
            ) is Some {
                (Some(r0), c0, self.max_len as nat)
            } else {
                script_search(r0 + 1, c0 + 1, self.max_len as nat, self.max_witnesses as nat)
            });
            match candidate_script(&witness) {
                Some(script) => {
                    self.awaiting = true;
                    assert(start == (Some(r0), c0, self.max_len as nat));
                    return SolveStep::Check { rank, witness, script };
                },
                None => {
                    self.checked = self.checked + 1;
                },
            }
        }
        assert(start == (None::<nat>, self.checked as nat, self.max_len as nat));
        SolveStep::Exhausted { witnesses_checked: self.checked, max_length_reached: self.max_len }
    }
}

} // verus!
