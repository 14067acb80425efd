use crate::preprocess::cnf::clause::ClauseID;
use crate::preprocess::cnf::cnf::{fx_get, fx_keys, lit_in, lits_in, no_longer, shortened, CNF};
use crate::preprocess::selfsubsume::strengthens_at;
use crate::preprocess::cnf::var::VarId;
use crate::preprocess::niver::{niver, niver_applies, niver_elimination, niver_step};
use crate::cnf::literals::var_of;
use crate::preprocess::selfsubsume::selfsubsumes;
use crate::preprocess::subsume::subsumed;
use std::collections::{BTreeMap, VecDeque};
use vstd::prelude::*;

verus! {

/// Why a clause was last touched.
#[derive(Debug, PartialEq, Eq, Structural, Clone, Copy)]
enum Reason {
    Add,
    Del,
    Stren,
}

/// When a clause was last touched: in the previous round, in the current one, or earlier.
#[derive(Debug, PartialEq, Eq, Structural, Clone, Copy)]
enum Round {
    Prev,
    Curr,
    Never,
}

#[derive(Debug, PartialEq, Eq, Structural, Clone, Copy)]
struct RoundTrace {
    reason: Reason,
    round: Round,
}

impl RoundTrace {
    fn new(reason: Reason, round: Round) -> (r: RoundTrace)
        ensures
            r.reason == reason,
            r.round == round,
    {
        RoundTrace { reason, round }
    }

    /// Touched in the previous or the current round.
    fn recently(self) -> (r: bool)
        ensures
            r == (self.round != Round::Never),
    {
        self.round != Round::Never
    }
}

/// The IDs of the traced clauses are clauses of the formula, and the traced eliminations name
/// variables of the formula and clauses of it.
spec fn traces_ok(
    cnf: CNF,
    round_traces: Map<ClauseID, RoundTrace>,
    niver_trace: Seq<(VarId, Vec<ClauseID>)>,
) -> bool {
    &&& forall|id: ClauseID| #[trigger] round_traces.contains_key(id) ==> cnf.clauses@.contains_key(id)
    &&& forall|t: int, q: int|
        0 <= t < niver_trace.len() && 0 <= q < niver_trace[t].1@.len() ==> cnf.clauses@.contains_key(
            #[trigger] niver_trace[t].1@[q],
        )
    &&& forall|t: int| 0 <= t < niver_trace.len() ==> cnf.vars@.contains_key(#[trigger] niver_trace[t].0)
    &&& forall|t: int| 0 <= t < niver_trace.len() ==> niver_elimination((#[trigger] niver_trace[t]).0, niver_trace[t].1@)
    &&& forall|t: int, q: int|
        0 <= t < niver_trace.len() && 0 <= q < niver_trace[t].1@.len() ==> !cnf.clauses@[#[trigger] niver_trace[t].1@[q]].active
}


/// Self-subsumption strengthens some clause of the formula.
pub open spec fn strengthenable(c: CNF) -> bool {
    exists|id: ClauseID, i: int|
        c.clauses@.contains_key(id) && 0 <= i < c.clauses@[id].lits@.len() && #[trigger] strengthens_at(
            c,
            c.clauses@[id],
            i,
        )
}

/// Some clause got shorter if one could be strengthened at the start.
pub open spec fn progress_ok(c0: CNF, c1: CNF) -> bool {
    strengthenable(c0) ==> shortened(c0, c1)
}

/// Some clause of the formula has a literal of `v`.
pub open spec fn occurs_in(c: CNF, v: VarId) -> bool {
    exists|id: ClauseID, j: int|
        #![trigger c.clauses@[id].lits@[j]]
        c.clauses@.contains_key(id) && 0 <= j < c.clauses@[id].lits@.len() && var_of(c.clauses@[id].lits@[j].0)
            == v
}

/// `v` occurs in at most ten clauses with one of its signs, so the preprocessor tries NiVER on
/// it.
pub open spec fn niver_candidate(c: CNF, v: VarId) -> bool {
    c.vars@.contains_key(v) && (c.vars@[v].pos_occ@.len() <= 10 || c.vars@[v].neg_occ@.len() <= 10)
}

/// A NiVER step applies to a variable that occurs in a clause and is a candidate.
pub open spec fn niver_pending(c: CNF) -> bool {
    exists|v: VarId| occurs_in(c, v) && niver_candidate(c, v) && #[trigger] niver_applies(c, v)
}

/// Some variable occurs in more clauses than there are clause IDs left above `max_clause_id`.
pub open spec fn ids_short(c: CNF) -> bool {
    exists|v: VarId|
        #[trigger] c.vars@.contains_key(v) && c.max_clause_id + c.vars@[v].pos_occ@.len() + c.vars@[v].neg_occ@.len()
            > u32::MAX
}

/// Distinct variable IDs number at most 2^32.
proof fn lemma_distinct_ids_len(s: Seq<VarId>)
    requires
        s.no_duplicates(),
    ensures
        s.len() <= 0x1_0000_0000,
{
    let ids = s.map_values(|x: VarId| x as int);
    assert(ids.no_duplicates()) by {
        assert forall|i: int, j: int| 0 <= i < ids.len() && 0 <= j < ids.len() && i != j implies ids[i] != ids[j] by {
            assert(s[i] != s[j]);
        }
    }
    ids.unique_seq_to_set();
    vstd::set_lib::lemma_int_range(0, 0x1_0000_0000);
    assert(ids.to_set().subset_of(vstd::set_lib::set_int_range(0, 0x1_0000_0000))) by {
        assert forall|x: int| ids.to_set().contains(x) implies vstd::set_lib::set_int_range(0, 0x1_0000_0000).contains(x) by {
            let k = choose|k: int| 0 <= k < ids.len() && ids[k] == x;
            assert(ids[k] == s[k] as int);
        }
    }
    vstd::set_lib::lemma_len_subset(ids.to_set(), vstd::set_lib::set_int_range(0, 0x1_0000_0000));
}

/// A clause once shorter stays shorter while no clause grows.
proof fn lemma_shortened_kept(c0: CNF, c1: CNF, c2: CNF)
    requires
        no_longer(c0, c1),
        no_longer(c1, c2),
    ensures
        no_longer(c0, c2),
        shortened(c0, c1) ==> shortened(c0, c2),
{
    if shortened(c0, c1) {
        let x = choose|x: ClauseID|
            #[trigger] c0.clauses@.contains_key(x) && c1.clauses@.contains_key(x) && c1.clauses@[x].lits@.len()
                < c0.clauses@[x].lits@.len();
        assert(c1.clauses@.contains_key(x));
    }
    assert forall|x: ClauseID| #[trigger] c0.clauses@.contains_key(x) implies c2.clauses@.contains_key(x)
        && c2.clauses@[x].lits@.len() <= c0.clauses@[x].lits@.len() by {
        assert(c1.clauses@.contains_key(x));
    }
}

/// A NiVER step lengthens no clause.
proof fn lemma_niver_no_longer(c0: CNF, c1: CNF, v: VarId, ids: Seq<ClauseID>)
    requires
        niver_step(c0, c1, v, ids),
    ensures
        no_longer(c0, c1),
{
    assert forall|x: ClauseID| #[trigger] c0.clauses@.contains_key(x) implies c1.clauses@.contains_key(x)
        && c1.clauses@[x].lits@.len() <= c0.clauses@[x].lits@.len() by {
        assert(c1.clauses@[x].lits == c0.clauses@[x].lits);
    }
}

/// The clause IDs that `round_traces` holds from 0 to `max`, in ascending order, whose trace
/// says they were touched recently.
fn recent_clauses(round_traces: &BTreeMap<ClauseID, RoundTrace>, max: ClauseID) -> (r: VecDeque<ClauseID>)
    ensures
        forall|q: int| 0 <= q < r@.len() ==> round_traces@.contains_key(#[trigger] r@[q]),
        forall|id: ClauseID|
            id <= max && #[trigger] round_traces@.contains_key(id) && round_traces@[id].round != Round::Never
                ==> r@.contains(id),
        r@.len() <= max + 1,
{
    let mut r: VecDeque<ClauseID> = VecDeque::new();
    let mut idx: u64 = 0;
    while idx <= max as u64
        invariant
            idx <= max + 1,
            r@.len() <= idx,
            forall|q: int| 0 <= q < r@.len() ==> round_traces@.contains_key(#[trigger] r@[q]),
            forall|id: ClauseID|
                id < idx && #[trigger] round_traces@.contains_key(id) && round_traces@[id].round != Round::Never
                    ==> r@.contains(id),
        decreases max as u64 + 1 - idx,
    {
        let id = idx as u32;
        let ghost r0 = r@;
        match round_traces.get(&id) {
            Some(rt) => {
                if rt.recently() {
                    r.push_back(id);
                    proof {
                        assert forall|q: int| 0 <= q < r@.len() implies round_traces@.contains_key(#[trigger] r@[q]) by {
                            if q < r0.len() {
                                assert(r@[q] == r0[q]);
                            }
                        }
                        assert(r@[r@.len() - 1] == id);
                    }
                }
            },
            None => {},
        }
        proof {
            assert forall|x: ClauseID|
                x < idx + 1 && #[trigger] round_traces@.contains_key(x) && round_traces@[x].round != Round::Never
                    implies r@.contains(x) by {
                if x < idx {
                    assert(r0.contains(x));
                    let w = choose|w: int| 0 <= w < r0.len() && r0[w] == x;
                    assert(r@[w] == x);
                }
            }
        }
        idx = idx + 1;
    }
    r
}

/// The SatELite preprocessor: rounds of self-subsumption (with unit propagation after each
/// strengthening), subsumption and NiVER on the variables of recently touched clauses (those
/// occurring in at most ten clauses of one sign), until a round strengthens or subsumes nothing
/// or eliminates nothing. Returns the eliminations, each with the clauses it took out, in order.
/// It stops early where the clause IDs could run out, and after `u64::MAX` steps. The first
/// round tries every clause: where one can be strengthened, some clause ends shorter; and where
/// the formula comes back unchanged with an empty trace (and the clause IDs could not run out),
/// no NiVER step applies to any variable of a clause that occurs in at most ten clauses of one
/// sign. Each elimination of the trace is a NiVER step, and the clauses it took out stay out.
#[verifier::spinoff_prover]
#[verifier::rlimit(60)]
pub fn preprocess(cnf: &mut CNF) -> (r: VecDeque<(VarId, Vec<ClauseID>)>)
    requires
        old(cnf).wf(),
    ensures
        final(cnf).wf(),
        final(cnf).vars@.dom() == old(cnf).vars@.dom(),
        forall|id: ClauseID| #[trigger] old(cnf).clauses@.contains_key(id) ==> final(cnf).clauses@.contains_key(id),
        forall|t: int, q: int|
            0 <= t < r@.len() && 0 <= q < r@[t].1@.len() ==> final(cnf).clauses@.contains_key(
                #[trigger] r@[t].1@[q],
            ),
        forall|t: int| 0 <= t < r@.len() ==> final(cnf).vars@.contains_key(#[trigger] r@[t].0),
        forall|t: int| 0 <= t < r@.len() ==> niver_elimination((#[trigger] r@[t]).0, r@[t].1@) && r@[t].1@.len() > 0,
        forall|t: int, q: int|
            0 <= t < r@.len() && 0 <= q < r@[t].1@.len() ==> !final(cnf).clauses@[#[trigger] r@[t].1@[q]].active,
        progress_ok(*old(cnf), *final(cnf)),
        r@.len() == 0 && *final(cnf) == *old(cnf) && !ids_short(*old(cnf)) ==> !niver_pending(*final(cnf)),
{
    let mut round_traces: BTreeMap<ClauseID, RoundTrace> = BTreeMap::new();
    let keys = fx_keys(&cnf.clauses);
    let mut i: usize = 0;
    while i < keys.len()
        invariant
            keys@.to_set() == cnf.clauses@.dom(),
            i <= keys@.len(),
            forall|id: ClauseID| #[trigger] round_traces@.contains_key(id) ==> cnf.clauses@.contains_key(id),
            forall|j: int|
                0 <= j < i ==> round_traces@.contains_key(#[trigger] keys@[j]) && round_traces@[keys@[j]].round
                    != Round::Never,
        decreases keys@.len() - i,
    {
        assert(keys@.to_set().contains(keys@[i as int]));
        round_traces.insert(keys[i], RoundTrace::new(Reason::Add, Round::Prev));
        i = i + 1;
    }
    proof {
        assert forall|id: ClauseID| #[trigger] cnf.clauses@.contains_key(id) implies round_traces@.contains_key(id)
            && round_traces@[id].round != Round::Never by {
            assert(keys@.to_set().contains(id));
            let j = choose|j: int| 0 <= j < keys@.len() && keys@[j] == id;
        }
    }
    let ghost mut first = true;
    let mut niver_trace: VecDeque<(VarId, Vec<ClauseID>)> = VecDeque::new();
    let mut niver_vars: VecDeque<VarId> = VecDeque::new();
    let mut change: u8 = 3;
    let mut steps: u64 = u64::MAX;
    while change == 3 && steps > 0
        invariant
            cnf.wf(),
            cnf.vars@.dom() == old(cnf).vars@.dom(),
            forall|id: ClauseID| #[trigger] old(cnf).clauses@.contains_key(id) ==> cnf.clauses@.contains_key(id),
            traces_ok(*cnf, round_traces@, niver_trace@),
            forall|q: int| 0 <= q < niver_vars@.len() ==> cnf.vars@.contains_key(#[trigger] niver_vars@[q]),
            no_longer(*old(cnf), *cnf),
            !first ==> progress_ok(*old(cnf), *cnf),
            first ==> *cnf == *old(cnf) && steps == u64::MAX && change == 3 && niver_trace@.len() == 0 && forall|id: ClauseID|
                #[trigger] cnf.clauses@.contains_key(id) ==> round_traces@.contains_key(id) && round_traces@[id].round
                    != Round::Never,
            !first ==> niver_trace@.len() > 0 || shortened(*old(cnf), *cnf) || (*cnf == *old(cnf) && change != 3
                && !niver_pending(*old(cnf))),
        decreases steps,
    {
        steps = steps - 1;
        let ghost round_steps = steps;
        let ghost was_first = first;
        let ghost mut shrunk = false;
        change = 0;
        let mut clauses = recent_clauses(&round_traces, cnf.max_clause_id);
        proof {
            if was_first {
                assert forall|id: ClauseID| #[trigger] old(cnf).clauses@.contains_key(id) implies clauses@.contains(id) by {
                    assert(cnf.clauses@.contains_key(id));
                }
                assert forall|id: ClauseID| #[trigger] old(cnf).clauses@.contains_key(id) implies round_traces@.contains_key(id)
                    && round_traces@[id].round != Round::Never by {
                    assert(cnf.clauses@.contains_key(id));
                }
            }
        }
        // self-subsumption
        while steps > 0
            invariant_except_break
                was_first && !shrunk ==> steps >= clauses@.len() + 0x2_0000_0001,
            invariant
                steps <= round_steps,
                cnf.wf(),
                cnf.vars@.dom() == old(cnf).vars@.dom(),
                forall|id: ClauseID| #[trigger] old(cnf).clauses@.contains_key(id) ==> cnf.clauses@.contains_key(id),
                traces_ok(*cnf, round_traces@, niver_trace@),
                forall|q: int| 0 <= q < niver_vars@.len() ==> cnf.vars@.contains_key(#[trigger] niver_vars@[q]),
                forall|q: int| 0 <= q < clauses@.len() ==> cnf.clauses@.contains_key(#[trigger] clauses@[q]),
                no_longer(*old(cnf), *cnf),
                !was_first ==> progress_ok(*old(cnf), *cnf),
                was_first && shrunk ==> shortened(*old(cnf), *cnf),
                !was_first ==> niver_trace@.len() > 0 || shortened(*old(cnf), *cnf),
                was_first && !shrunk ==> change == 0 && forall|id: ClauseID|
                    #[trigger] old(cnf).clauses@.contains_key(id) ==> round_traces@.contains_key(id)
                        && round_traces@[id].round != Round::Never,
                was_first && !shrunk ==> *cnf == *old(cnf) && steps >= 0x2_0000_0000 && forall|id: ClauseID|
                    #[trigger] old(cnf).clauses@.contains_key(id) && !clauses@.contains(id) ==> forall|i: int|
                        0 <= i < old(cnf).clauses@[id].lits@.len() ==> !strengthens_at(
                            *old(cnf),
                            old(cnf).clauses@[id],
                            i,
                        ),
            ensures
                cnf.wf(),
                cnf.vars@.dom() == old(cnf).vars@.dom(),
                forall|id: ClauseID| #[trigger] old(cnf).clauses@.contains_key(id) ==> cnf.clauses@.contains_key(id),
                traces_ok(*cnf, round_traces@, niver_trace@),
                forall|q: int| 0 <= q < niver_vars@.len() ==> cnf.vars@.contains_key(#[trigger] niver_vars@[q]),
                no_longer(*old(cnf), *cnf),
                progress_ok(*old(cnf), *cnf),
                steps <= round_steps,
                !was_first ==> niver_trace@.len() > 0 || shortened(*old(cnf), *cnf),
                was_first && shrunk ==> shortened(*old(cnf), *cnf),
                was_first && !shrunk ==> change == 0 && *cnf == *old(cnf) && steps >= 0x2_0000_0000 && forall|id: ClauseID|
                    #[trigger] old(cnf).clauses@.contains_key(id) ==> round_traces@.contains_key(id)
                        && round_traces@[id].round != Round::Never,
            decreases steps,
        {
            steps = steps - 1;
            let ghost q0 = clauses@;
            let clause_id = match clauses.pop_front() {
                Some(c) => c,
                None => {
                    proof {
                        if was_first && !shrunk {
                            assert(!strengthenable(*old(cnf)));
                        }
                    }
                    break;
                },
            };
            assert(cnf.clauses@.contains_key(q0[0]));
            let ghost dom0 = cnf.clauses@.dom();
            let ghost c_ss = *cnf;
            if selfsubsumes(clause_id, cnf) {
                change = change | 2;
                assert(cnf.clauses@.dom() == dom0);
                proof {
                    assert(no_longer(c_ss, *cnf) && shortened(c_ss, *cnf)) by {
                        let i = choose|i: int|
                            0 <= i < c_ss.clauses@[clause_id].lits@.len() && strengthens_at(c_ss, c_ss.clauses@[clause_id], i)
                                && (forall|i2: int| 0 <= i2 < i ==> !strengthens_at(c_ss, c_ss.clauses@[clause_id], i2))
                                && crate::preprocess::cnf::cnf::lit_removed(c_ss, *cnf, clause_id, c_ss.clauses@[clause_id].lits@[i]);
                        crate::preprocess::cnf::cnf::lemma_removal_no_longer(c_ss, *cnf, clause_id, c_ss.clauses@[clause_id].lits@[i]);
                        crate::preprocess::cnf::cnf::lemma_without_first_len(
                            c_ss.clauses@[clause_id].lits@,
                            c_ss.clauses@[clause_id].lits@[i],
                        );
                        assert(cnf.clauses@.contains_key(clause_id));
                    }
                    lemma_shortened_kept(*old(cnf), c_ss, *cnf);
                    shrunk = true;
                }
                let ghost c_up = *cnf;
                let ghost q1 = clauses@;
                clauses.push_back(clause_id);
                proof {
                    assert forall|q: int| 0 <= q < clauses@.len() implies cnf.clauses@.contains_key(#[trigger] clauses@[q]) by {
                        if q < q1.len() {
                            assert(clauses@[q] == q1[q]);
                        }
                    }
                }
                round_traces.insert(clause_id, RoundTrace::new(Reason::Stren, Round::Curr));
                let deactivated = cnf.unit_prop();
                proof {
                    lemma_shortened_kept(*old(cnf), c_up, *cnf);
                    if was_first {
                        assert(shortened(*old(cnf), c_up));
                    }
                }
                let mut k: usize = 0;
                while k < deactivated.len()
                    invariant
                        k <= deactivated@.len(),
                        forall|q: int| 0 <= q < deactivated@.len() ==> cnf.clauses@.contains_key(#[trigger] deactivated@[q]),
                        traces_ok(*cnf, round_traces@, niver_trace@),
                    decreases deactivated@.len() - k,
                {
                    round_traces.insert(deactivated[k], RoundTrace::new(Reason::Del, Round::Curr));
                    k = k + 1;
                }
            } else {
                proof {
                    if was_first && !shrunk {
                        assert forall|id: ClauseID|
                            #[trigger] old(cnf).clauses@.contains_key(id) && !clauses@.contains(id) implies forall|i: int|
                                0 <= i < old(cnf).clauses@[id].lits@.len() ==> !strengthens_at(
                                    *old(cnf),
                                    old(cnf).clauses@[id],
                                    i,
                                ) by {
                            if id != clause_id {
                                if q0.contains(id) {
                                    let w = choose|w: int| 0 <= w < q0.len() && q0[w] == id;
                                    assert(w != 0);
                                    assert(clauses@[w - 1] == id);
                                }
                            }
                        }
                    }
                }
            }
        }
        let ghost p = was_first && !shrunk;
        proof {
            first = false;
        }
        // subsumption
        let max = cnf.max_clause_id;
        let mut idx: u64 = 0;
        while idx <= max as u64
            invariant
                cnf.wf(),
                traces_ok(*cnf, round_traces@, niver_trace@),
                p ==> *cnf == *old(cnf) && (change == 0 || change == 2) && steps >= 0x2_0000_0000 && forall|id: ClauseID|
                    #[trigger] old(cnf).clauses@.contains_key(id) ==> round_traces@.contains_key(id)
                        && round_traces@[id].round != Round::Never,
                !p ==> niver_trace@.len() > 0 || shortened(*old(cnf), *cnf),
                max == cnf.max_clause_id,
            decreases max as u64 + 1 - idx,
        {
            let id = idx as u32;
            match round_traces.get(&id) {
                Some(rt) => {
                    let rt = *rt;
                    if rt.reason == Reason::Add && rt.round == Round::Prev && subsumed(id, cnf) {
                        proof {
                            let c0 = change;
                            assert(c0 == 0 || c0 == 2 ==> (c0 | 2) == 2) by (bit_vector);
                        }
                        change = change | 2;
                        round_traces.insert(id, RoundTrace::new(Reason::Del, Round::Curr));
                    }
                },
                None => {},
            }
            idx = idx + 1;
        }
        // NiVER on the variables of recently touched clauses
        let mut idx: u64 = 0;
        while idx <= max as u64
            invariant
                cnf.wf(),
                traces_ok(*cnf, round_traces@, niver_trace@),
                forall|q: int| 0 <= q < niver_vars@.len() ==> cnf.vars@.contains_key(#[trigger] niver_vars@[q]),
                max == cnf.max_clause_id,
                p ==> *cnf == *old(cnf) && forall|id: ClauseID|
                    #[trigger] old(cnf).clauses@.contains_key(id) ==> round_traces@.contains_key(id)
                        && round_traces@[id].round != Round::Never,
                p ==> forall|id: ClauseID, j: int|
                    #![trigger cnf.clauses@[id].lits@[j]]
                    id < idx && cnf.clauses@.contains_key(id) && 0 <= j < cnf.clauses@[id].lits@.len()
                        ==> niver_vars@.contains(var_of(cnf.clauses@[id].lits@[j].0) as u32),
            decreases max as u64 + 1 - idx,
        {
            let id = idx as u32;
            let ghost nb = niver_vars@;
            match round_traces.get(&id) {
                Some(rt) => {
                    if rt.recently() {
                        let clause = fx_get(&cnf.clauses, id).unwrap();
                        assert(lits_in(*clause, cnf.vars@));
                        let mut j: usize = 0;
                        while j < clause.lits.len()
                            invariant
                                j <= clause.lits@.len(),
                                lits_in(*clause, cnf.vars@),
                                forall|q: int| 0 <= q < niver_vars@.len() ==> cnf.vars@.contains_key(#[trigger] niver_vars@[q]),
                                forall|x: VarId| #[trigger] nb.contains(x) ==> niver_vars@.contains(x),
                                forall|j2: int|
                                    0 <= j2 < j ==> niver_vars@.contains(var_of((#[trigger] clause.lits@[j2]).0) as u32),
                            decreases clause.lits@.len() - j,
                        {
                            assert(lit_in(clause.lits@[j as int], cnf.vars@));
                            let ghost n0 = niver_vars@;
                            niver_vars.push_back(clause.lits[j].var_id());
                            proof {
                                assert forall|q: int| 0 <= q < niver_vars@.len() implies cnf.vars@.contains_key(#[trigger] niver_vars@[q]) by {
                                    if q < n0.len() {
                                        assert(niver_vars@[q] == n0[q]);
                                    }
                                }
                                assert forall|x: VarId| n0.contains(x) implies #[trigger] niver_vars@.contains(x) by {
                                    let w = choose|w: int| 0 <= w < n0.len() && n0[w] == x;
                                    assert(niver_vars@[w] == x);
                                }
                                assert(niver_vars@[n0.len() as int] as int == var_of(clause.lits@[j as int].0));
                            }
                            j = j + 1;
                        }
                    }
                },
                None => {},
            }
            proof {
                if p {
                    assert forall|id2: ClauseID, j: int|
                        id2 < idx + 1 && cnf.clauses@.contains_key(id2) && 0 <= j < cnf.clauses@[id2].lits@.len()
                            implies niver_vars@.contains(var_of(#[trigger] cnf.clauses@[id2].lits@[j].0) as u32) by {
                        if id2 < idx {
                            assert(nb.contains(var_of(cnf.clauses@[id2].lits@[j].0) as u32));
                        } else {
                            assert(old(cnf).clauses@.contains_key(id2));
                        }
                    }
                }
            }
            idx = idx + 1;
        }
        let ghost nv = niver_vars@;
        let mut unique_vars: VecDeque<VarId> = VecDeque::new();
        let mut k: usize = 0;
        while k < niver_vars.len()
            invariant
                k <= niver_vars@.len(),
                forall|q: int| 0 <= q < niver_vars@.len() ==> cnf.vars@.contains_key(#[trigger] niver_vars@[q]),
                forall|q: int| 0 <= q < unique_vars@.len() ==> cnf.vars@.contains_key(#[trigger] unique_vars@[q]),
                forall|q: int| 0 <= q < k ==> unique_vars@.contains(#[trigger] niver_vars@[q]),
                unique_vars@.no_duplicates(),
            decreases niver_vars@.len() - k,
        {
            let v = niver_vars[k];
            let mut seen = false;
            let mut w: usize = 0;
            while w < unique_vars.len()
                invariant
                    w <= unique_vars@.len(),
                    seen == exists|w2: int| 0 <= w2 < w && unique_vars@[w2] == v,
                decreases unique_vars@.len() - w,
            {
                if unique_vars[w] == v {
                    seen = true;
                }
                w = w + 1;
            }
            let ghost u0 = unique_vars@;
            if !seen {
                unique_vars.push_back(v);
                proof {
                    assert forall|q: int| 0 <= q < unique_vars@.len() implies cnf.vars@.contains_key(#[trigger] unique_vars@[q]) by {
                        if q < u0.len() {
                            assert(unique_vars@[q] == u0[q]);
                        }
                    }
                    assert forall|q: int| 0 <= q < k + 1 implies unique_vars@.contains(#[trigger] niver_vars@[q]) by {
                        if q < k {
                            let w2 = choose|w2: int| 0 <= w2 < u0.len() && u0[w2] == niver_vars@[q];
                            assert(unique_vars@[w2] == niver_vars@[q]);
                        } else {
                            assert(unique_vars@[u0.len() as int] == v);
                        }
                    }
                }
            } else {
                proof {
                    let w2 = choose|w2: int| 0 <= w2 < unique_vars@.len() && unique_vars@[w2] == v;
                    assert(unique_vars@.contains(niver_vars@[k as int]));
                }
            }
            k = k + 1;
        }
        proof {
            lemma_distinct_ids_len(unique_vars@);
        }
        niver_vars = unique_vars;
        let ghost u = niver_vars@;
        let ghost mut pn = false;
        proof {
            if p {
                assert forall|v: VarId| occurs_in(*old(cnf), v) implies #[trigger] u.contains(v) by {
                    let (id, j) = choose|id: ClauseID, j: int|
                        #![trigger old(cnf).clauses@[id].lits@[j]]
                        old(cnf).clauses@.contains_key(id) && 0 <= j < old(cnf).clauses@[id].lits@.len() && var_of(
                            old(cnf).clauses@[id].lits@[j].0,
                        ) == v;
                    assert(cnf.clauses@.contains_key(id));
                    assert(nv.contains(var_of(cnf.clauses@[id].lits@[j].0) as u32));
                    let q = choose|q: int| 0 <= q < nv.len() && nv[q] == v;
                    assert(u.contains(nv[q]));
                }
            }
        }
        while steps > 0
            invariant
                p ==> forall|v: VarId| occurs_in(*old(cnf), v) ==> #[trigger] u.contains(v),
                p ==> pn || (*cnf == *old(cnf) && niver_trace@.len() == 0 && (change == 0 || change == 2) && steps
                    >= niver_vars@.len()),
                p && !pn ==> forall|v: VarId|
                    #[trigger] u.contains(v) && !niver_vars@.contains(v) && niver_candidate(*old(cnf), v)
                        ==> !niver_applies(*old(cnf), v),
                p && pn ==> niver_trace@.len() > 0,
                !p ==> niver_trace@.len() > 0 || shortened(*old(cnf), *cnf),
                steps <= round_steps,
                cnf.wf(),
                cnf.vars@.dom() == old(cnf).vars@.dom(),
                forall|id: ClauseID| #[trigger] old(cnf).clauses@.contains_key(id) ==> cnf.clauses@.contains_key(id),
                traces_ok(*cnf, round_traces@, niver_trace@),
                forall|q: int| 0 <= q < niver_vars@.len() ==> cnf.vars@.contains_key(#[trigger] niver_vars@[q]),
                no_longer(*old(cnf), *cnf),
                progress_ok(*old(cnf), *cnf),
            ensures
                p && !pn ==> niver_vars@.len() == 0,
            decreases steps,
        {
            steps = steps - 1;
            let ghost n0 = niver_vars@;
            let var_id = match niver_vars.pop_front() {
                Some(v) => v,
                None => {
                    break;
                },
            };
            assert(cnf.vars@.contains_key(n0[0]));
            proof {
                assert forall|x: VarId| #[trigger] n0.contains(x) && x != var_id implies niver_vars@.contains(x) by {
                    let w = choose|w: int| 0 <= w < n0.len() && n0[w] == x;
                    assert(niver_vars@[w - 1] == x);
                }
            }
            let var = fx_get(&cnf.vars, var_id).unwrap();
            if var.pos_occ.len() > 10 && var.neg_occ.len() > 10 {
                continue;
            }
            let room = u32::MAX - cnf.max_clause_id;
            if var.pos_occ.len() > room as usize || var.neg_occ.len() > room as usize - var.pos_occ.len() {
                proof {
                    if p && !pn {
                        assert(old(cnf).vars@.contains_key(var_id));
                    }
                }
                return niver_trace;
            }
            let ghost cb = *cnf;
            let (niver_change, niver_trace_) = niver(var_id, cnf);
            proof {
                if niver_change {
                    lemma_niver_no_longer(cb, *cnf, var_id, niver_trace_@);
                    lemma_shortened_kept(*old(cnf), cb, *cnf);
                    pn = true;
                }
            }
            if niver_change {
                proof {
                    crate::preprocess::cnf::misc::lemma_distinct(
                        cb.vars@[var_id].pos_occ@ + cb.vars@[var_id].neg_occ@,
                    );
                    assert forall|q: int| 0 <= q < niver_trace_@.len() implies cnf.clauses@.contains_key(
                        #[trigger] niver_trace_@[q],
                    ) by {
                        let pos = cb.vars@[var_id].pos_occ@;
                        let neg = cb.vars@[var_id].neg_occ@;
                        let both = pos + neg;
                        let x = niver_trace_@[q];
                        assert(crate::preprocess::cnf::misc::distinct(both).contains(x));
                        assert(both.contains(x));
                        assert(crate::preprocess::cnf::cnf::occ_in(cb.vars@[var_id], cb.clauses@));
                        let w = choose|w: int| 0 <= w < both.len() && both[w] == x;
                        if w < pos.len() {
                            assert(both[w] == pos[w]);
                            assert(cb.clauses@.contains_key(pos[w]));
                        } else {
                            assert(both[w] == neg[w - pos.len()]);
                            assert(cb.clauses@.contains_key(neg[w - pos.len()]));
                        }
                    }
                    assert(traces_ok(*cnf, round_traces@, niver_trace@)) by {
                        assert forall|id: ClauseID| #[trigger] round_traces@.contains_key(id) implies cnf.clauses@.contains_key(id) by {
                            assert(cb.clauses@.contains_key(id));
                        }
                        assert forall|t: int, q: int|
                            0 <= t < niver_trace@.len() && 0 <= q < niver_trace@[t].1@.len() implies cnf.clauses@.contains_key(
                            #[trigger] niver_trace@[t].1@[q],
                        ) by {
                            assert(cb.clauses@.contains_key(niver_trace@[t].1@[q]));
                        }
                        assert forall|t: int, q: int|
                            0 <= t < niver_trace@.len() && 0 <= q < niver_trace@[t].1@.len() implies !cnf.clauses@[#[trigger] niver_trace@[t].1@[q]].active by {
                            assert(cb.clauses@.contains_key(niver_trace@[t].1@[q]));
                            assert(!cb.clauses@[niver_trace@[t].1@[q]].active);
                        }
                    }
                }
                let mut k: usize = 0;
                while k < niver_trace_.len()
                    invariant
                        k <= niver_trace_@.len(),
                        forall|q: int| 0 <= q < niver_trace_@.len() ==> cnf.clauses@.contains_key(#[trigger] niver_trace_@[q]),
                        traces_ok(*cnf, round_traces@, niver_trace@),
                    decreases niver_trace_@.len() - k,
                {
                    round_traces.insert(niver_trace_[k], RoundTrace::new(Reason::Add, Round::Curr));
                    k = k + 1;
                }
                let ghost t0 = niver_trace@;
                niver_trace.push_back((var_id, niver_trace_));
                proof {
                    assert forall|t: int, q: int|
                        0 <= t < niver_trace@.len() && 0 <= q < niver_trace@[t].1@.len() implies cnf.clauses@.contains_key(
                        #[trigger] niver_trace@[t].1@[q],
                    ) by {
                        if t < t0.len() {
                            assert(niver_trace@[t] == t0[t]);
                        }
                    }
                    assert forall|t: int| 0 <= t < niver_trace@.len() implies cnf.vars@.contains_key(#[trigger] niver_trace@[t].0) by {
                        if t < t0.len() {
                            assert(niver_trace@[t] == t0[t]);
                        }
                    }
                    assert(niver_step(cb, *cnf, var_id, niver_trace_@));
                    assert forall|t: int| 0 <= t < niver_trace@.len() implies niver_elimination(
                        (#[trigger] niver_trace@[t]).0,
                        niver_trace@[t].1@,
                    ) by {
                        if t < t0.len() {
                            assert(niver_trace@[t] == t0[t]);
                        } else {
                            assert(niver_trace@[t] == (var_id, niver_trace_));
                            assert(cb.wf() && niver_step(cb, *cnf, var_id, niver_trace_@));
                        }
                    }
                    assert forall|t: int, q: int|
                        0 <= t < niver_trace@.len() && 0 <= q < niver_trace@[t].1@.len() implies !cnf.clauses@[#[trigger] niver_trace@[t].1@[q]].active by {
                        if t < t0.len() {
                            assert(niver_trace@[t] == t0[t]);
                        } else {
                            assert(niver_trace@[t] == (var_id, niver_trace_));
                            let x = niver_trace_@[q];
                            assert(cnf.clauses@.contains_key(x));
                            assert(cb.clauses@.contains_key(x)) by {
                                let pos = cb.vars@[var_id].pos_occ@;
                                let neg = cb.vars@[var_id].neg_occ@;
                                let both = pos + neg;
                                crate::preprocess::cnf::misc::lemma_distinct(both);
                                assert(crate::preprocess::cnf::misc::distinct(both).contains(x));
                                assert(both.contains(x));
                                assert(crate::preprocess::cnf::cnf::occ_in(cb.vars@[var_id], cb.clauses@));
                                let w = choose|w: int| 0 <= w < both.len() && both[w] == x;
                                if w < pos.len() {
                                    assert(both[w] == pos[w]);
                                    assert(cb.clauses@.contains_key(pos[w]));
                                } else {
                                    assert(both[w] == neg[w - pos.len()]);
                                    assert(cb.clauses@.contains_key(neg[w - pos.len()]));
                                }
                            }
                            assert(crate::preprocess::niver::niver_deleted(cb, var_id).contains(x));
                        }
                    }
                }
                let ghost n1 = niver_vars@;
                niver_vars.push_back(var_id);
                proof {
                    assert forall|q: int| 0 <= q < niver_vars@.len() implies cnf.vars@.contains_key(#[trigger] niver_vars@[q]) by {
                        if q < n1.len() {
                            assert(niver_vars@[q] == n1[q]);
                        }
                    }
                }
                change = change | 1;
            }
        }
        // the current round becomes the previous one
        let max = cnf.max_clause_id;
        let mut idx: u64 = 0;
        while idx <= max as u64
            invariant
                traces_ok(*cnf, round_traces@, niver_trace@),
            decreases max as u64 + 1 - idx,
        {
            let id = idx as u32;
            match round_traces.get(&id) {
                Some(rt) => {
                    let rt = *rt;
                    let round = match rt.round {
                        Round::Curr => Round::Prev,
                        _ => Round::Never,
                    };
                    round_traces.insert(id, RoundTrace::new(rt.reason, round));
                },
                None => {},
            }
            idx = idx + 1;
        }
    }
    niver_trace
}
} // verus!
