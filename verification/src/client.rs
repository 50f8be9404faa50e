//! The negotiation protocol's turn logic: what each side decides once a
//! message is in hand. The surrounding loop — sockets, timing, persistence —
//! stays outside; it hands raw values in and carries the decisions out.

use vstd::prelude::*;

use crate::behavior::ops::{
    spec_apply, spec_apply_seq, spec_cap_language, spec_op_views, spec_respond, spec_reverse,
    spec_skills, spec_state, ApplyState, OpModel, Operation, Order,
};
use crate::behavior::personality::{
    spec_cloud_view, spec_inv_view, spec_upgraded, Language, Personality,
};
use crate::parser::FullParse;
use crate::random::Entropy;
use crate::sandwich::{spec_names, Sandwich};

verus! {

/// Whether one server turn's outcome matches the application of `applied`
/// on top of the standing edits: the plate, the stock, the cloud, the
/// reactive response, and the standing-edit list all line up with the
/// transition's end state `st`.
pub open spec fn spec_turn_matches(
    plate: Sandwich,
    p: Personality,
    ord: Order,
    old_ord: Order,
    resp: Option<Operation>,
    applied: OpModel,
    st: ApplyState,
) -> bool {
    &&& spec_names(plate.ingredients@) == st.ingredients
    &&& spec_names(plate.ensured@) == st.ensured
    &&& plate.complete == st.complete
    &&& spec_inv_view(p.inventory@) == st.inventory
    &&& spec_cloud_view(p.cloud@) == st.cloud
    &&& (match resp {
        Some(op2) => spec_respond(applied, st.inventory) == Some(op2@),
        None => spec_respond(applied, st.inventory) is None,
    })
    &&& (applied is Persist ==> spec_op_views(ord.persistent_ops@) == spec_op_views(
        old_ord.persistent_ops@,
    ).push(applied))
    &&& (!(applied is Persist) ==> ord.persistent_ops == old_ord.persistent_ops)
}

/// One server turn: the standing edits are re-applied, the incoming
/// operation is applied — reversed first when pent-up spite wins the roll,
/// which then vents the spite — the reported construct tally upgrades the
/// grammar skills, the phrase's annotation is kept for reinforcement, a
/// persistent operation joins the standing edits, and the operation's own
/// reactive follow-up is handed back for sending.
pub fn server_turn(
    order: &mut Order,
    personality: &mut Personality,
    incoming: FullParse,
    current: Sandwich,
    rng: &mut Entropy,
) -> (r: (Sandwich, Option<Operation>))
    ensures
        final(order).desired == old(order).desired,
        final(order).history == old(order).history,
        final(order).last_result == old(order).last_result,
        final(personality).adposition == spec_upgraded(
            old(personality).adposition as int,
            incoming.lang@.adposition,
        ),
        final(personality).numbers == spec_upgraded(
            old(personality).numbers as int,
            incoming.lang@.numbers,
        ),
        final(personality).adverbs == spec_upgraded(
            old(personality).adverbs as int,
            incoming.lang@.adverbs,
        ),
        final(personality).conjunction == spec_upgraded(
            old(personality).conjunction as int,
            incoming.lang@.conjunction,
        ),
        final(personality).adverb_side == spec_upgraded(
            old(personality).adverb_side as int,
            incoming.lang@.adverb_side,
        ),
        final(personality).last_lex == Some(incoming.lex),
        old(personality).spite == 0 ==> final(personality).spite == 0,
        ({
            let es = old(personality).dictionary.spec_entries();
            let stp = spec_apply_seq(
                spec_op_views(old(order).persistent_ops@),
                spec_state(current, *old(personality)),
                es,
            );
            ||| (spec_turn_matches(
                r.0,
                *final(personality),
                *final(order),
                *old(order),
                r.1,
                incoming.operation@,
                spec_apply(incoming.operation@, stp, es),
            ) && final(personality).spite == old(personality).spite)
            ||| (spec_turn_matches(
                r.0,
                *final(personality),
                *final(order),
                *old(order),
                r.1,
                spec_reverse(incoming.operation@),
                spec_apply(spec_reverse(incoming.operation@), stp, es),
            ) && final(personality).spite == 0)
        }),
        old(personality).spite == 0 && old(order).persistent_ops@.len() == 0 ==> ({
            let st1 = crate::behavior::ops::spec_apply(
                incoming.operation@,
                crate::behavior::ops::spec_state(current, *old(personality)),
                old(personality).dictionary.spec_entries(),
            );
            &&& spec_names(r.0.ingredients@) == st1.ingredients
            &&& spec_names(r.0.ensured@) == st1.ensured
            &&& r.0.complete == st1.complete
            &&& crate::behavior::personality::spec_inv_view(final(personality).inventory@)
                == st1.inventory
            &&& crate::behavior::personality::spec_cloud_view(final(personality).cloud@)
                == st1.cloud
            &&& (match r.1 {
                Some(op2) => crate::behavior::ops::spec_respond(incoming.operation@, st1.inventory)
                    == Some(op2@),
                None => crate::behavior::ops::spec_respond(
                    incoming.operation@,
                    st1.inventory,
                ) is None,
            })
            &&& (incoming.operation@ is Persist ==> final(order).persistent_ops@ == old(
                order,
            ).persistent_ops@.push(incoming.operation))
            &&& (!(incoming.operation@ is Persist) ==> final(order).persistent_ops == old(
                order,
            ).persistent_ops)
        }),
{
    // Every standing edit hits the sandwich again before the new request.
    let ghost es = personality.dictionary.spec_entries();
    let ghost st0 = spec_state(current, *personality);
    let ghost standing = spec_op_views(order.persistent_ops@);
    let mut s: Sandwich = current;
    let mut k: usize = 0;
    proof {
        assert(standing.take(0) =~~= Seq::<OpModel>::empty());
    }
    while k < order.persistent_ops.len()
        invariant
            k <= order.persistent_ops@.len(),
            *order == *old(order),
            es == old(personality).dictionary.spec_entries(),
            st0 == spec_state(current, *old(personality)),
            standing == spec_op_views(old(order).persistent_ops@),
            standing.len() == old(order).persistent_ops@.len(),
            spec_state(s, *personality) == spec_apply_seq(standing.take(k as int), st0, es),
            s.background_color@ == current.background_color@,
            *personality == (Personality {
                inventory: personality.inventory,
                cloud: personality.cloud,
                ..*old(personality)
            }),
            old(order).persistent_ops@.len() == 0 ==> s == current && *personality == *old(
                personality,
            ),
        decreases order.persistent_ops@.len() - k,
    {
        proof {
            assert(standing[k as int] == order.persistent_ops@[k as int]@);
            assert(standing.take(k + 1) =~~= standing.take(k as int).push(standing[k as int]));
            crate::behavior::ops::lemma_apply_seq_snoc(
                standing.take(k as int),
                standing[k as int],
                st0,
                es,
            );
        }
        s = order.persistent_ops[k].apply(s, personality);
        k = k + 1;
    }
    proof {
        assert(standing.take(standing.len() as int) =~~= standing);
    }
    // High spite flips the request, and acting on it vents the anger.
    let stress: u32 = personality.stress();
    let spite_gate: u32 = {
        proof {
            assert(personality.spite as u64 * stress as u64 <= 0xffff_ffffu64 * 200)
                by (nonlinear_arith)
                requires
                    personality.spite <= 0xffff_ffffu32,
                    stress <= 200,
            ;
        }
        let wide: u64 = personality.spite as u64 * stress as u64 / 100;
        if wide > 990 {
            990
        } else {
            wide as u32
        }
    };
    proof {
        if old(personality).spite == 0 && old(order).persistent_ops@.len() == 0 {
            assert(personality.spite as u64 * stress as u64 == 0) by (nonlinear_arith)
                requires
                    personality.spite == 0,
            ;
            assert(spite_gate == 0);
        }
    }
    let op: Operation = if rng.chance(spite_gate) {
        personality.spite = 0;
        incoming.operation.reverse()
    } else {
        incoming.operation
    };
    let s2: Sandwich = op.apply(s, personality);
    personality.apply_upgrade(incoming.lang);
    let response: Option<Operation> = op.respond(personality);
    if op.is_persistent() {
        let ghost before: Seq<Operation> = order.persistent_ops@;
        order.persistent_ops.push(op);
        proof {
            assert(spec_op_views(before).len() == before.len());
            assert forall|x: int|
                0 <= x < spec_op_views(order.persistent_ops@).len() implies #[trigger] spec_op_views(
                order.persistent_ops@,
            )[x] == spec_op_views(before).push(order.persistent_ops@.last()@)[x] by {
                assert(spec_op_views(order.persistent_ops@)[x] == order.persistent_ops@[x]@);
                if x < before.len() {
                    assert(order.persistent_ops@[x] == before[x]);
                    assert(spec_op_views(before)[x] == before[x]@);
                }
            }
            assert(spec_op_views(order.persistent_ops@) =~~= spec_op_views(before).push(
                order.persistent_ops@.last()@,
            ));
        }
    }
    personality.last_lex = Some(incoming.lex);
    (s2, response)
}

/// One customer reception: the server's counter-operation edits the
/// desired sandwich — running low on something desired trims the desire —
/// its annotation is kept, and when the last question provoked a change in
/// the observed sandwich, the understanding is reinforced on the spot.
pub fn customer_receive(
    order: &mut Order,
    personality: &mut Personality,
    incoming: FullParse,
    observed: &Sandwich,
)
    ensures
        final(order).history == old(order).history,
        final(order).last_result == old(order).last_result,
        final(order).persistent_ops == old(order).persistent_ops,
        final(personality).last_lex == Some(incoming.lex),
        *final(personality) == (Personality {
            inventory: final(personality).inventory,
            cloud: final(personality).cloud,
            last_lex: final(personality).last_lex,
            ..*old(personality)
        }),
        ({
            let es = old(personality).dictionary.spec_entries();
            let lexv = crate::grammar::views_of_annotated(incoming.lex@);
            let st1 = spec_apply(
                incoming.operation@,
                spec_state(old(order).desired, *old(personality)),
                es,
            );
            if old(order).history@.len() > 0 && old(order).last_result is Some {
                let stq0 = (ApplyState {
                    ingredients: crate::sandwich::spec_names(
                        old(order).last_result->Some_0.ingredients@,
                    ),
                    ensured: crate::sandwich::spec_names(
                        old(order).last_result->Some_0.ensured@,
                    ),
                    complete: old(order).last_result->Some_0.complete,
                    inventory: st1.inventory,
                    cloud: st1.cloud,
                    last_lex: Some(lexv),
                });
                let stq1 = spec_apply(old(order).history@.last()@, stq0, es);
                let failed = stq0.ingredients == stq1.ingredients && stq1.ingredients
                    != spec_names(observed.ingredients@);
                let st2 = (ApplyState {
                    ingredients: st1.ingredients,
                    ensured: st1.ensured,
                    complete: st1.complete,
                    inventory: stq1.inventory,
                    cloud: stq1.cloud,
                    last_lex: Some(lexv),
                });
                let done = if failed {
                    spec_apply(OpModel::Affirm, st2, es)
                } else {
                    st2
                };
                &&& spec_names(final(order).desired.ingredients@) == done.ingredients
                &&& spec_names(final(order).desired.ensured@) == done.ensured
                &&& final(order).desired.complete == done.complete
                &&& spec_inv_view(final(personality).inventory@) == done.inventory
                &&& spec_cloud_view(final(personality).cloud@) == done.cloud
            } else {
                &&& spec_names(final(order).desired.ingredients@) == st1.ingredients
                &&& spec_names(final(order).desired.ensured@) == st1.ensured
                &&& final(order).desired.complete == st1.complete
                &&& spec_inv_view(final(personality).inventory@) == st1.inventory
                &&& spec_cloud_view(final(personality).cloud@) == st1.cloud
            }
        }),
{
    let ghost es = personality.dictionary.spec_entries();
    let ghost st_start = spec_state(order.desired, *personality);
    let ghost lexv = crate::grammar::views_of_annotated(incoming.lex@);
    let desired: Sandwich = order.desired.clone();
    proof {
        assert(spec_state(desired, *personality) =~~= st_start);
    }
    let reshaped: Sandwich = incoming.operation.apply(desired, personality);
    let ghost st1 = spec_apply(incoming.operation@, st_start, es);
    proof {
        assert(spec_state(reshaped, *personality) == st1);
    }
    order.desired = reshaped;
    personality.last_lex = Some(incoming.lex);
    let ghost stq0 = (ApplyState {
        ingredients: spec_names(order.last_result->Some_0.ingredients@),
        ensured: spec_names(order.last_result->Some_0.ensured@),
        complete: order.last_result->Some_0.complete,
        inventory: st1.inventory,
        cloud: st1.cloud,
        last_lex: Some(lexv),
    });
    proof {
        if order.history@.len() > 0 && order.last_result is Some {
            assert(spec_state(order.last_result->Some_0, *personality) =~~= stq0);
        }
    }
    let ghost stq1 = spec_apply(order.history@.last()@, stq0, es);
    if order.last_question_failed(personality, observed) {
        let ghost st2 = (ApplyState {
            ingredients: st1.ingredients,
            ensured: st1.ensured,
            complete: st1.complete,
            inventory: stq1.inventory,
            cloud: stq1.cloud,
            last_lex: Some(lexv),
        });
        let shown: Sandwich = order.desired.clone();
        proof {
            assert(spec_state(shown, *personality) =~~= st2);
        }
        let affirmed: Sandwich = Operation::Affirm.apply(shown, personality);
        proof {
            assert(spec_state(affirmed, *personality) == spec_apply(OpModel::Affirm, st2, es));
        }
        order.desired = affirmed;
    }
}

/// One customer learning step: when the last operation demonstrably went
/// through, the skills it exercised are reinforced, and the caller owes the
/// server a word of thanks. A failed turn reports back for the caller's
/// give-up count.
pub fn customer_learn(
    order: &Order,
    personality: &mut Personality,
    observed: &Sandwich,
) -> (r: bool)
    ensures
        order.history@.len() == 0 || order.last_result is None ==> r == false
            && *final(personality) == *old(personality),
        order.history@.len() > 0 && order.last_result is Some ==> ({
            let es = old(personality).dictionary.spec_entries();
            let st0 = spec_state(order.last_result->Some_0, *old(personality));
            let st1 = spec_apply(order.history@.last()@, st0, es);
            let tally = spec_cap_language(spec_skills(order.history@.last()@));
            &&& r == (st0.ingredients != st1.ingredients && st1.ingredients == spec_names(
                observed.ingredients@,
            ))
            &&& spec_inv_view(final(personality).inventory@) == st1.inventory
            &&& spec_cloud_view(final(personality).cloud@) == st1.cloud
            &&& (r ==> final(personality).adposition == spec_upgraded(
                old(personality).adposition as int,
                tally.adposition,
            ) && final(personality).numbers == spec_upgraded(
                old(personality).numbers as int,
                tally.numbers,
            ) && final(personality).adverbs == spec_upgraded(
                old(personality).adverbs as int,
                tally.adverbs,
            ) && final(personality).conjunction == spec_upgraded(
                old(personality).conjunction as int,
                tally.conjunction,
            ) && final(personality).adverb_side == spec_upgraded(
                old(personality).adverb_side as int,
                tally.adverb_side,
            ) && *final(personality) == (Personality {
                inventory: final(personality).inventory,
                cloud: final(personality).cloud,
                adposition: final(personality).adposition,
                numbers: final(personality).numbers,
                adverbs: final(personality).adverbs,
                conjunction: final(personality).conjunction,
                adverb_side: final(personality).adverb_side,
                ..*old(personality)
            }))
            &&& (!r ==> *final(personality) == (Personality {
                inventory: final(personality).inventory,
                cloud: final(personality).cloud,
                ..*old(personality)
            }))
        }),
{
    if order.last_op_successful(personality, observed) {
        let tally: Language = match order.last_op() {
            Some(op) => op.skills(),
            None => {
                return false;
            },
        };
        personality.apply_upgrade(tally);
        true
    } else {
        false
    }
}

/// One customer request: the next operation for the observed sandwich,
/// doubled into a compound request when planning, courage, and the
/// conjunction skill line up. The request still has to be archived once it
/// is actually sent.
pub fn customer_next(
    order: &mut Order,
    personality: &mut Personality,
    observed: &Sandwich,
    rng: &mut Entropy,
) -> (r: Option<Operation>)
    ensures
        final(order).history == old(order).history,
        final(order).desired.ensured == old(order).desired.ensured,
        final(order).desired.complete == old(order).desired.complete,
        old(personality).spontaneity == 0 ==> final(order).desired == old(order).desired,
        spec_names(old(order).desired.ingredients@).is_prefix_of(
            spec_names(final(order).desired.ingredients@),
        ),
        r is Some ==> !crate::behavior::ops::spec_all_in(
            spec_names(old(order).desired.ingredients@),
            spec_names(observed.ingredients@),
        ),
        crate::behavior::ops::spec_all_in(
            spec_names(old(order).desired.ingredients@),
            spec_names(observed.ingredients@),
        ) ==> r is None,
        crate::behavior::ops::spec_plain_agent(*old(personality)) ==> ({
            let d = spec_names(old(order).desired.ingredients@);
            let rs = spec_names(observed.ingredients@);
            let es = old(personality).dictionary.spec_entries();
            crate::behavior::ops::spec_all_in(d, rs) || (match r {
                Some(op) => Some(op@) == crate::behavior::ops::spec_plain_pick(d, rs) || (
                match op@ {
                    OpModel::Compound(a, b) => Some(*a) == crate::behavior::ops::spec_plain_pick(
                        d,
                        rs,
                    ) && Some(*b) == crate::behavior::ops::spec_plain_pick(
                        d,
                        spec_apply(*a, spec_state(*observed, *old(personality)), es).ingredients,
                    ),
                    _ => false,
                }),
                None => crate::behavior::ops::spec_plain_pick(d, rs) is None,
            })
        }),
{
    let first: Operation = match order.pick_op(personality, observed, rng) {
        Some(op) => op,
        None => {
            return None;
        },
    };
    let stress: u32 = personality.stress();
    let planned_gate: u32 = {
        proof {
            assert(personality.planned as u64 * stress as u64 <= 0xffff_ffffu64 * 200)
                by (nonlinear_arith)
                requires
                    personality.planned <= 0xffff_ffffu32,
                    stress <= 200,
            ;
        }
        let wide: u64 = personality.planned as u64 * stress as u64 / 100;
        if wide > 950 {
            950
        } else {
            wide as u32
        }
    };
    let shy_gate: u32 = {
        let wide: u64 = personality.shyness as u64 * 100 / stress as u64;
        if wide > 1000 {
            1000
        } else {
            wide as u32
        }
    };
    if rng.chance(planned_gate) && !rng.chance(shy_gate) && rng.chance(personality.conjunction) {
        let ghost es = personality.dictionary.spec_entries();
        let ghost st_obs = spec_state(*observed, *personality);
        let cloned: Sandwich = observed.clone();
        proof {
            assert(spec_state(cloned, *personality) =~~= st_obs);
        }
        let assumed: Sandwich = first.apply(cloned, personality);
        let ghost mid = spec_apply(first@, st_obs, es);
        proof {
            assert(spec_state(assumed, *personality) == mid);
            assert(spec_names(assumed.ingredients@) == mid.ingredients);
        }
        match order.pick_op(personality, &assumed, rng) {
            Some(second) => {
                return Some(Operation::Compound(Box::new(first), Box::new(second)));
            },
            None => {
                return Some(first);
            },
        }
    }
    Some(first)
}

} // verus!
