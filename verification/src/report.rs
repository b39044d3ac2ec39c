//! The counts of a campaign's table: which agents stand in it and in which
//! order, which of them are compared across the two observation modes, the
//! errors per code and the tokens per wave. The averages are left to the
//! program that prints the table.
use vstd::prelude::*;
use crate::campaign::RunResult;
use crate::text::str_eq;
use crate::llm::{spec_strip_suffix, strip_suffix};

verus! {

/// The agents of the first `n` rows, each once, in the order they first appear.
pub open spec fn first_seen(rows: Seq<RunResult>, n: int) -> Seq<Seq<char>>
    decreases n,
{
    if n <= 0 {
        Seq::empty()
    } else {
        let p = first_seen(rows, n - 1);
        if p.contains(rows[n - 1].agent@) {
            p
        } else {
            p.push(rows[n - 1].agent@)
        }
    }
}

/// Whether `name` is one of `names`.
fn holds(names: &Vec<String>, name: &str) -> (r: bool)
    ensures
        r == exists|i: int| 0 <= i < names@.len() && #[trigger] names@[i]@ == name@,
{
    let mut i: usize = 0;
    while i < names.len()
        invariant
            i <= names@.len(),
            forall|j: int| 0 <= j < i ==> (#[trigger] names@[j])@ != name@,
        decreases names@.len() - i,
    {
        if str_eq(names[i].as_str(), name) {
            return true;
        }
        i += 1;
    }
    false
}

/// The agents of the table, each once, in the order of their first row.
pub fn agents_in_order(rows: &[RunResult]) -> (v: Vec<String>)
    ensures
        v@.len() == first_seen(rows@, rows@.len() as int).len(),
        forall|i: int| 0 <= i < v@.len() ==> (#[trigger] v@[i])@ == first_seen(rows@, rows@.len() as int)[i],
{
    let mut v: Vec<String> = Vec::new();
    let mut k: usize = 0;
    while k < rows.len()
        invariant
            k <= rows@.len(),
            v@.len() == first_seen(rows@, k as int).len(),
            forall|i: int| 0 <= i < v@.len() ==> (#[trigger] v@[i])@ == first_seen(rows@, k as int)[i],
        decreases rows@.len() - k,
    {
        let ghost p = first_seen(rows@, k as int);
        let name = rows[k].agent.as_str();
        let seen = holds(&v, name);
        proof {
            if seen {
                let j = choose|j: int| 0 <= j < v@.len() && #[trigger] v@[j]@ == name@;
                assert(p[j] == name@);
                assert(p.contains(name@));
            } else {
                assert forall|j: int| 0 <= j < p.len() implies p[j] != name@ by {
                    assert(v@[j]@ == p[j]);
                }
            }
        }
        if !seen {
            let ghost before = v@;
            v.push(String::from_str(name));
            proof {
                assert forall|i: int| 0 <= i < v@.len() implies (#[trigger] v@[i])@ == first_seen(rows@, k + 1)[i] by {
                    if i < before.len() {
                        assert(v@[i] == before[i]);
                    }
                }
            }
        }
        k += 1;
    }
    v
}

/// The agents compared across the modes: those named `X+detailed` whose `X`
/// stands in the table too, by their index among the first `n`.
pub open spec fn detailed_pairs_upto(agents: Seq<Seq<char>>, n: int) -> Seq<int>
    decreases n,
{
    if n <= 0 {
        Seq::empty()
    } else {
        let p = detailed_pairs_upto(agents, n - 1);
        match spec_strip_suffix(agents[n - 1], "+detailed"@) {
            Some(base) => if agents.contains(base) {
                p.push(n - 1)
            } else {
                p
            },
            None => p,
        }
    }
}

/// The views of a list of names.
pub open spec fn names_view(v: Seq<String>) -> Seq<Seq<char>> {
    Seq::new(v.len(), |i: int| v[i]@)
}

/// The agents of the table played in the detailed mode whose minimal run
/// stands in the table too, by index.
pub fn detailed_pairs(agents: &Vec<String>) -> (v: Vec<usize>)
    ensures
        v@.len() == detailed_pairs_upto(names_view(agents@), agents@.len() as int).len(),
        forall|i: int| 0 <= i < v@.len() ==> v@[i] == detailed_pairs_upto(names_view(agents@), agents@.len() as int)[i],
{
    let ghost names = names_view(agents@);
    let mut v: Vec<usize> = Vec::new();
    let mut k: usize = 0;
    while k < agents.len()
        invariant
            k <= agents@.len(),
            names == names_view(agents@),
            v@.len() == detailed_pairs_upto(names, k as int).len(),
            forall|i: int| 0 <= i < v@.len() ==> v@[i] == detailed_pairs_upto(names, k as int)[i],
        decreases agents@.len() - k,
    {
        let ghost before = v@;
        assert(names[k as int] == agents@[k as int]@);
        match strip_suffix(agents[k].as_str(), "+detailed") {
            Some(base) => {
                let found = holds(agents, base);
                proof {
                    if found {
                        let j = choose|j: int| 0 <= j < agents@.len() && #[trigger] agents@[j]@ == base@;
                        assert(names[j] == base@);
                    } else {
                        assert forall|j: int| 0 <= j < names.len() implies names[j] != base@ by {
                            assert(names[j] == agents@[j]@);
                        }
                    }
                }
                if found {
                    v.push(k);
                }
            },
            None => {},
        }
        proof {
            assert forall|i: int| 0 <= i < v@.len() implies v@[i] == detailed_pairs_upto(names, k + 1)[i] by {
                if i < before.len() {
                    assert(v@[i] == before[i]);
                }
            }
        }
        k += 1;
    }
    v
}

/// Error count `code` summed over the rows of agent `agent` among the first `n`.
pub open spec fn error_total(rows: Seq<RunResult>, agent: Seq<char>, code: int, n: int) -> int
    decreases n,
{
    if n <= 0 {
        0
    } else {
        error_total(rows, agent, code, n - 1) + if rows[n - 1].agent@ == agent {
            rows[n - 1].errors@[code] as int
        } else {
            0
        }
    }
}

/// Tokens summed over the rows of agent `agent` among the first `n`.
pub open spec fn token_total(rows: Seq<RunResult>, agent: Seq<char>, n: int) -> int
    decreases n,
{
    if n <= 0 {
        0
    } else {
        token_total(rows, agent, n - 1) + if rows[n - 1].agent@ == agent {
            rows[n - 1].tokens as int
        } else {
            0
        }
    }
}

/// Waves reached summed over the rows of agent `agent` among the first `n`.
pub open spec fn wave_total(rows: Seq<RunResult>, agent: Seq<char>, n: int) -> int
    decreases n,
{
    if n <= 0 {
        0
    } else {
        wave_total(rows, agent, n - 1) + if rows[n - 1].agent@ == agent {
            rows[n - 1].wave as int
        } else {
            0
        }
    }
}

/// The errors of agent `agent`, summed per code over its rows.
pub fn error_totals(rows: &[RunResult], agent: &str) -> (t: [u128; 7])
    ensures
        forall|c: int| 0 <= c < 7 ==> #[trigger] t@[c] == error_total(rows@, agent@, c, rows@.len() as int),
{
    let mut t: [u128; 7] = [0; 7];
    let mut k: usize = 0;
    while k < rows.len()
        invariant
            k <= rows@.len(),
            forall|c: int| 0 <= c < 7 ==> #[trigger] t@[c] == error_total(rows@, agent@, c, k as int),
            forall|c: int| 0 <= c < 7 ==> #[trigger] error_total(rows@, agent@, c, k as int) <= k * 0xffff_ffff,
        decreases rows@.len() - k,
    {
        let mine = str_eq(rows[k].agent.as_str(), agent);
        let mut c: usize = 0;
        while c < 7
            invariant
                k < rows@.len(),
                c <= 7,
                mine == (rows@[k as int].agent@ == agent@),
                forall|d: int| 0 <= d < c ==> #[trigger] t@[d] == error_total(rows@, agent@, d, k + 1),
                forall|d: int| c <= d < 7 ==> #[trigger] t@[d] == error_total(rows@, agent@, d, k as int),
                forall|d: int| 0 <= d < 7 ==> #[trigger] error_total(rows@, agent@, d, k as int) <= k * 0xffff_ffff,
            decreases 7 - c,
        {
            if mine {
                assert(t@[c as int] + rows@[k as int].errors@[c as int] <= (k + 1) * 0xffff_ffff) by (nonlinear_arith)
                    requires
                        t@[c as int] <= k * 0xffff_ffff,
                        rows@[k as int].errors@[c as int] <= 0xffff_ffff,
                ;
                assert((k + 1) * 0xffff_ffff <= 0x1_0000_0000_0000_0000 * 0x1_0000_0000) by (nonlinear_arith)
                    requires
                        k < 0x1_0000_0000_0000_0000,
                ;
                t[c] = t[c] + rows[k].errors[c] as u128;
            }
            c += 1;
        }
        proof {
            assert forall|d: int| 0 <= d < 7 implies #[trigger] error_total(rows@, agent@, d, k + 1) <= (k + 1)
                * 0xffff_ffff by {
                assert(error_total(rows@, agent@, d, k as int) <= k * 0xffff_ffff);
                assert(k * 0xffff_ffff + 0xffff_ffff == (k + 1) * 0xffff_ffff) by (nonlinear_arith);
            }
        }
        k += 1;
    }
    t
}

/// Tokens per wave reached of agent `agent`: `None` when it spent no token
/// (no language model), otherwise the total tokens over the total waves
/// (at least one), rounded down.
pub fn tokens_per_wave(rows: &[RunResult], agent: &str) -> (r: Option<u128>)
    ensures
        r == (if token_total(rows@, agent@, rows@.len() as int) == 0 {
            None::<u128>
        } else {
            let w = wave_total(rows@, agent@, rows@.len() as int);
            Some((token_total(rows@, agent@, rows@.len() as int) / (if w > 1 { w } else { 1 })) as u128)
        }),
{
    let mut tokens: u128 = 0;
    let mut waves: u128 = 0;
    let mut k: usize = 0;
    while k < rows.len()
        invariant
            k <= rows@.len(),
            tokens == token_total(rows@, agent@, k as int),
            waves == wave_total(rows@, agent@, k as int),
            tokens <= k * 0xffff_ffff_ffff_ffff,
            waves <= k * 0xffff_ffff,
        decreases rows@.len() - k,
    {
        if str_eq(rows[k].agent.as_str(), agent) {
            assert(tokens + rows@[k as int].tokens <= (k + 1) * 0xffff_ffff_ffff_ffff) by (nonlinear_arith)
                requires
                    tokens <= k * 0xffff_ffff_ffff_ffff,
                    rows@[k as int].tokens <= 0xffff_ffff_ffff_ffff,
            ;
            assert((k + 1) * 0xffff_ffff_ffff_ffff < 0x1_0000_0000_0000_0000 * 0x1_0000_0000_0000_0000) by (nonlinear_arith)
                requires
                    k < 0x1_0000_0000_0000_0000,
            ;
            assert(waves + rows@[k as int].wave <= (k + 1) * 0xffff_ffff) by (nonlinear_arith)
                requires
                    waves <= k * 0xffff_ffff,
                    rows@[k as int].wave <= 0xffff_ffff,
            ;
            assert((k + 1) * 0xffff_ffff < 0x1_0000_0000_0000_0000 * 0x1_0000_0000) by (nonlinear_arith)
                requires
                    k < 0x1_0000_0000_0000_0000,
            ;
            tokens = tokens + rows[k].tokens as u128;
            waves = waves + rows[k].wave as u128;
        } else {
            assert(tokens <= (k + 1) * 0xffff_ffff_ffff_ffff) by (nonlinear_arith)
                requires
                    tokens <= k * 0xffff_ffff_ffff_ffff,
            ;
            assert(waves <= (k + 1) * 0xffff_ffff) by (nonlinear_arith)
                requires
                    waves <= k * 0xffff_ffff,
            ;
        }
        k += 1;
    }
    if tokens == 0 {
        None
    } else {
        let w = if waves > 1 { waves } else { 1 };
        Some(tokens / w)
    }
}

} // verus!
