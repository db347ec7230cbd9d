//! Selection of the problems to work on.

use super::statement::{all_problem_ids, problem_ids, proved_ids, proved_problem_ids, str_eq};
use super::text::{lemma_take_step_char, split_on, trim, trim_str};
use vstd::prelude::*;

verus! {

/// The open conjectures.
pub open spec fn open_ids() -> Seq<Seq<char>> {
    seq!["goldbach"@, "collatz"@, "twin_primes"@, "odd_perfect"@, "mertens"@, "legendre"@, "erdos_straus"@]
}

/// The Millennium Prize problems.
pub open spec fn millennium_ids() -> Seq<Seq<char>> {
    seq!["p_vs_np"@, "riemann_full"@, "navier_stokes"@, "yang_mills"@, "hodge"@, "bsd_full"@]
}

/// The problem list named by an argument: `all`, `proved`, `open`,
/// `millennium`, or a comma-separated list of ids.
pub open spec fn problem_list(arg: Seq<char>) -> Seq<Seq<char>> {
    if arg == "all"@ {
        problem_ids()
    } else if arg == "proved"@ {
        proved_problem_ids()
    } else if arg == "open"@ {
        open_ids()
    } else if arg == "millennium"@ {
        millennium_ids()
    } else {
        split_on(arg, ',').map_values(|p: Seq<char>| trim(p))
    }
}

/// Parse a problem list argument.
pub fn parse_problem_list(arg: &str) -> (r: Vec<&str>)
    ensures
        r@.len() == problem_list(arg@).len(),
        forall|i: int| 0 <= i < r@.len() ==> #[trigger] r@[i]@ == problem_list(arg@)[i],
{
    if str_eq(arg, "all") {
        return all_problem_ids();
    }
    if str_eq(arg, "proved") {
        return proved_ids();
    }
    if str_eq(arg, "open") {
        let r = vec!["goldbach", "collatz", "twin_primes", "odd_perfect", "mertens", "legendre", "erdos_straus"];
        assert(r@ =~= seq!["goldbach", "collatz", "twin_primes", "odd_perfect", "mertens", "legendre", "erdos_straus"]);
        return r;
    }
    if str_eq(arg, "millennium") {
        let r = vec!["p_vs_np", "riemann_full", "navier_stokes", "yang_mills", "hodge", "bsd_full"];
        assert(r@ =~= seq!["p_vs_np", "riemann_full", "navier_stokes", "yang_mills", "hodge", "bsd_full"]);
        return r;
    }
    let ghost s = arg@;
    let n = arg.unicode_len();
    let mut out: Vec<&str> = Vec::new();
    let ghost mut done: Seq<Seq<char>> = Seq::empty();
    let mut start: usize = 0;
    let mut i: usize = 0;
    assert(s.take(0) =~= Seq::<char>::empty());
    assert(s.subrange(0, 0) =~= Seq::<char>::empty());
    while i < n
        invariant
            start <= i <= n,
            n == s.len(),
            s == arg@,
            split_on(s.take(i as int), ',') == done.push(s.subrange(start as int, i as int)),
            out@.len() == done.len(),
            forall|k: int| 0 <= k < out@.len() ==> #[trigger] out@[k]@ == trim(done[k]),
        decreases n - i,
    {
        proof {
            lemma_take_step_char(s, i as int);
        }
        let c = arg.get_char(i);
        if c == ',' {
            let piece = trim_str(arg.substring_char(start, i));
            proof {
                done = done.push(s.subrange(start as int, i as int));
            }
            out.push(piece);
            start = i + 1;
            assert(s.subrange(start as int, i as int + 1) =~= Seq::<char>::empty());
        } else {
            assert(s.subrange(start as int, i as int + 1) =~= s.subrange(start as int, i as int).push(c));
        }
        i = i + 1;
    }
    let piece = trim_str(arg.substring_char(start, n));
    proof {
        done = done.push(s.subrange(start as int, n as int));
        assert(s.take(n as int) =~= s);
    }
    out.push(piece);
    out
}

} // verus!
