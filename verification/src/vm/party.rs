//! Which clients a validated program involves.

use crate::vm::isa::{ClientId, Instruction, InstructionView, ProgramView};
use crate::vm::validate::ValidProgram;
use vstd::prelude::*;

verus! {

/// The clients that receive outputs, in instruction order, one entry per
/// `Out` instruction.
pub open spec fn receivers(instructions: Seq<InstructionView>) -> Seq<ClientId>
    decreases instructions.len(),
{
    if instructions.len() == 0 {
        Seq::empty()
    } else {
        let rest = receivers(instructions.drop_last());
        match instructions.last() {
            InstructionView::Out { client, .. } => rest.push(client),
            _ => rest,
        }
    }
}

/// Every client a program names: the input providers in declaration
/// order, then the output receivers in instruction order.
pub open spec fn named_clients(p: ProgramView) -> Seq<ClientId> {
    p.inputs.map_values(|d: crate::vm::isa::InputDecl| d.client) + receivers(p.instructions)
}

/// `s` with every repeat of an earlier entry removed.
pub open spec fn first_occurrences(s: Seq<ClientId>) -> Seq<ClientId>
    decreases s.len(),
{
    if s.len() == 0 {
        Seq::empty()
    } else {
        let kept = first_occurrences(s.drop_last());
        if kept.contains(s.last()) {
            kept
        } else {
            kept.push(s.last())
        }
    }
}

proof fn lemma_first_occurrences(s: Seq<ClientId>)
    ensures
        first_occurrences(s).no_duplicates(),
        forall|c: ClientId| #[trigger] first_occurrences(s).contains(c) <==> s.contains(c),
    decreases s.len(),
{
    if s.len() > 0 {
        lemma_first_occurrences(s.drop_last());
        let kept = first_occurrences(s.drop_last());
        let out = first_occurrences(s);
        assert forall|c: ClientId| #[trigger] out.contains(c) <==> s.contains(c) by {
            if s.contains(c) {
                let i = choose|i: int| 0 <= i < s.len() && s[i] == c;
                if i == s.len() - 1 {
                    if !kept.contains(c) {
                        assert(out[kept.len() as int] == c);
                    }
                } else {
                    assert(s.drop_last()[i] == c);
                    assert(kept.contains(c));
                    let j = choose|j: int| 0 <= j < kept.len() && kept[j] == c;
                    assert(out[j] == c);
                }
            }
            if out.contains(c) {
                let j = choose|j: int| 0 <= j < out.len() && out[j] == c;
                if j < kept.len() {
                    assert(kept[j] == c);
                    assert(kept.contains(c));
                    assert(s.drop_last().contains(c));
                    let i = choose|i: int| 0 <= i < s.len() - 1 && s.drop_last()[i] == c;
                    assert(s[i] == c);
                } else {
                    assert(s[s.len() - 1] == c);
                }
            }
        }
    }
}

/// Push `client` unless it is already listed.
fn note_client(clients: &mut Vec<ClientId>, client: ClientId)
    ensures
        final(clients)@ == (if old(clients)@.contains(client) {
            old(clients)@
        } else {
            old(clients)@.push(client)
        }),
{
    let mut k: usize = 0;
    while k < clients.len()
        invariant
            k <= clients@.len(),
            clients@ == old(clients)@,
            forall|j: int| 0 <= j < k ==> clients@[j] != client,
        decreases clients@.len() - k,
    {
        if clients[k] == client {
            return;
        }
        k = k + 1;
    }
    clients.push(client);
}

/// The clients a program involves, each once, in order of first mention:
/// the input providers first, then the output receivers. The list the
/// parties wait for before they run the program.
pub fn participating_clients(program: &ValidProgram) -> (clients: Vec<ClientId>)
    ensures
        clients@ == first_occurrences(named_clients(program.program_view())),
        clients@.no_duplicates(),
        forall|c: ClientId| #[trigger] clients@.contains(c) <==> named_clients(program.program_view()).contains(c),
{
    let body = program.program();
    let ghost p = body@;
    let ghost providers = p.inputs.map_values(|d: crate::vm::isa::InputDecl| d.client);
    let mut clients: Vec<ClientId> = Vec::new();
    let mut k: usize = 0;
    while k < body.inputs.len()
        invariant
            p == body@,
            providers == p.inputs.map_values(|d: crate::vm::isa::InputDecl| d.client),
            k <= body.inputs@.len(),
            clients@ == first_occurrences(providers.subrange(0, k as int)),
        decreases body.inputs@.len() - k,
    {
        note_client(&mut clients, body.inputs[k].client);
        proof {
            assert(providers.subrange(0, k + 1).drop_last() =~= providers.subrange(0, k as int));
        }
        k = k + 1;
    }
    assert(providers.subrange(0, body.inputs@.len() as int) =~= providers);
    let mut k: usize = 0;
    while k < body.instructions.len()
        invariant
            p == body@,
            providers == p.inputs.map_values(|d: crate::vm::isa::InputDecl| d.client),
            k <= body.instructions@.len(),
            clients@ == first_occurrences(providers + receivers(p.instructions.subrange(0, k as int))),
        decreases body.instructions@.len() - k,
    {
        let ghost before = providers + receivers(p.instructions.subrange(0, k as int));
        proof {
            assert(p.instructions.subrange(0, k + 1).drop_last() =~= p.instructions.subrange(0, k as int));
            assert(p.instructions.subrange(0, k + 1).last() == body.instructions@[k as int]@);
        }
        match &body.instructions[k] {
            Instruction::Out { client, .. } => {
                proof {
                    let after = providers + receivers(p.instructions.subrange(0, k + 1));
                    assert(after =~= before.push(*client));
                    assert(after.drop_last() =~= before);
                }
                note_client(&mut clients, *client);
            },
            _ => {
                proof {
                    let after = providers + receivers(p.instructions.subrange(0, k + 1));
                    assert(after =~= before);
                }
            },
        }
        k = k + 1;
    }
    proof {
        assert(p.instructions.subrange(0, body.instructions@.len() as int) =~= p.instructions);
        lemma_first_occurrences(named_clients(p));
    }
    clients
}

/// What a party's engine node is sized for, from a validated program.
#[derive(Clone, Copy, Debug, PartialEq, Eq, Structural)]
pub struct EnginePlan {
    /// Beaver triples to preprocess: the program's price, at least one.
    pub triples: usize,
    /// Random mask shares to preprocess.
    pub random_shares: usize,
    /// Shared random bits to preprocess.
    pub prandbits: usize,
    /// Shared random integers to preprocess.
    pub prandints: usize,
    /// Bits of the random-integer bound: the integer part `k - f` of the
    /// program's fixed-point format, or none without one.
    pub riss_bits: usize,
    /// The engine instance, from the program's digest.
    pub instance_id: u32,
}

/// Size a party's engine node for `program`: its price (at least one
/// triple, as the engine needs one), the integer width of its fixed-point
/// format, and the instance its digest names.
pub fn engine_plan(program: &ValidProgram) -> (plan: EnginePlan)
    ensures
        plan.triples == if program.budget_view().triples == 0 { 1 } else { program.budget_view().triples },
        plan.random_shares == program.budget_view().random_shares,
        plan.prandbits == program.budget_view().prandbits,
        plan.prandints == program.budget_view().prandints,
        plan.riss_bits == match program.precision_view() {
            Some(p) => if p.f <= p.k { (p.k - p.f) as usize } else { 0 },
            None => 0,
        },
        plan.instance_id == crate::vm::codec::le_u32(program.digest_view()),
{
    let budget = program.budget();
    let riss_bits = match program.precision() {
        Some(precision) => if precision.f <= precision.k { (precision.k - precision.f) as usize } else { 0 },
        None => 0,
    };
    let digest = program.digest();
    EnginePlan {
        triples: if budget.triples == 0 { 1 } else { budget.triples },
        random_shares: budget.random_shares,
        prandbits: budget.prandbits,
        prandints: budget.prandints,
        riss_bits,
        instance_id: digest.instance_id(),
    }
}

} // verus!
