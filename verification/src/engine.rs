//! The tournament engine: pairing, round progression, winner determination.
//!
//! The engine is an explicit state machine so that the interactive part (the
//! caller performs one announcement or one pairwise choice at a time) stays
//! outside while every decision about pairing and elimination is verified
//! here. [`run_with_picks`] drives the same machine with a scripted sequence
//! of choices.
use rand::seq::SliceRandom;
use vstd::multiset::Multiset;
use vstd::prelude::*;

use crate::item::{Item, ItemModel, models};

verus! {

broadcast use
    vstd::seq_lib::group_to_multiset_ensures,
    vstd::multiset::group_multiset_axioms,
;

/// Survivors of a round that starts with `n` entrants: each pair yields one
/// winner and an odd leftover advances on a bye.
pub open spec fn half_up(n: nat) -> nat {
    (n + 1) / 2
}

/// How many rounds a tournament over `n` entrants plays before one remains:
/// the population shrinks from `n` to `half_up(n)` each round. This equals
/// `ceil(log2(n))` for `n >= 1`.
pub open spec fn rounds_needed(n: nat) -> nat
    decreases n,
{
    if n <= 1 {
        0
    } else {
        1 + rounds_needed(half_up(n))
    }
}

pub open spec fn pow2(k: nat) -> nat
    decreases k,
{
    if k == 0 {
        1
    } else {
        2 * pow2((k - 1) as nat)
    }
}

pub proof fn lemma_pow2_pos(k: nat)
    ensures
        pow2(k) >= 1,
    decreases k,
{
    if k > 0 {
        lemma_pow2_pos((k - 1) as nat);
    }
}

/// A tournament never plays as many rounds as it has entrants.
pub proof fn lemma_rounds_needed_lt(n: nat)
    requires
        n >= 2,
    ensures
        rounds_needed(n) < n,
    decreases n,
{
    if half_up(n) >= 2 {
        lemma_rounds_needed_lt(half_up(n));
        assert(half_up(n) <= n - 1);
    } else {
        assert(rounds_needed(half_up(n)) == 0);
    }
}

/// Law: a population that is a power of two plays exactly `log2` many rounds;
/// `rounds_needed` is `ceil(log2)`, so `rounds_needed(pow2(k)) == k`.
pub proof fn lemma_rounds_needed_pow2(k: nat)
    ensures
        rounds_needed(pow2(k)) == k,
    decreases k,
{
    if k > 0 {
        lemma_pow2_pos((k - 1) as nat);
        lemma_rounds_needed_pow2((k - 1) as nat);
        assert(half_up(pow2(k)) == pow2((k - 1) as nat));
    }
}

/// The item a choice selects from the pair `(a, b)`: the right one when
/// `right` holds, the left one otherwise.
pub open spec fn picked(a: ItemModel, b: ItemModel, right: bool) -> ItemModel {
    if right {
        b
    } else {
        a
    }
}

/// The winner of the whole tournament, one pairwise choice at a time. `pool`
/// holds the entrants of the current round not yet paired, `acc` those that
/// already advanced to the next round (in the order the choices were made),
/// and `picks` the choices still to be spent, one per comparison. When a
/// round is exhausted, an odd leftover advances without a comparison and the
/// accumulated survivors become the next round's pool.
pub open spec fn winner_from(pool: Seq<ItemModel>, acc: Seq<ItemModel>, picks: Seq<bool>) -> ItemModel
    decreases pool.len() + acc.len(), acc.len(),
{
    if pool.len() >= 2 {
        winner_from(
            pool.skip(2),
            acc.push(picked(pool[0], pool[1], picks.first())),
            picks.drop_first(),
        )
    } else if pool.len() == 1 {
        if acc.len() == 0 {
            pool[0]
        } else {
            winner_from(acc.push(pool[0]), Seq::empty(), picks)
        }
    } else if acc.len() == 1 {
        acc[0]
    } else if acc.len() == 0 {
        ItemModel { name: Seq::empty(), description: Seq::empty() }
    } else {
        winner_from(acc, Seq::empty(), picks)
    }
}

/// One full round over `pop`: pairs are strictly positional, `(pop[0],
/// pop[1])`, `(pop[2], pop[3])`, and so on; survivor `j` is the item
/// `picks[j]` chooses from pair `j` — it won its comparison — except an odd
/// last item, which advances on a bye without a comparison.
pub open spec fn round_of(pop: Seq<ItemModel>, picks: Seq<bool>) -> Seq<ItemModel> {
    Seq::new(
        half_up(pop.len()),
        |j: int|
            if 2 * j + 1 < pop.len() {
                picked(pop[2 * j], pop[2 * j + 1], picks[j])
            } else {
                pop[2 * j]
            },
    )
}

/// Law: the engine eliminates round by round — starting a round with `pop`,
/// the next round's population is exactly `round_of(pop, ...)`, so every
/// item that advances either won its comparison or advanced on the one odd
/// bye, and the tournament continues on those survivors with the remaining
/// picks.
pub proof fn lemma_one_round(pop: Seq<ItemModel>, picks: Seq<bool>)
    requires
        pop.len() >= 2,
        picks.len() >= pop.len() / 2,
    ensures
        winner_from(pop, Seq::empty(), picks) == winner_from(
            round_of(pop, picks.take((pop.len() / 2) as int)),
            Seq::empty(),
            picks.skip((pop.len() / 2) as int),
        ),
{
    lemma_round_acc(pop, Seq::empty(), picks);
    assert(Seq::empty() + round_of(pop, picks.take((pop.len() / 2) as int)) =~= round_of(
        pop,
        picks.take((pop.len() / 2) as int),
    ));
}

/// Generalisation of [`lemma_one_round`] over survivors already accumulated
/// mid-round.
proof fn lemma_round_acc(pool: Seq<ItemModel>, acc: Seq<ItemModel>, picks: Seq<bool>)
    requires
        pool.len() + acc.len() >= 1,
        picks.len() >= pool.len() / 2,
    ensures
        winner_from(pool, acc, picks) == ({
            let nr = acc + round_of(pool, picks.take((pool.len() / 2) as int));
            let rest = picks.skip((pool.len() / 2) as int);
            if nr.len() == 1 {
                nr[0]
            } else {
                winner_from(nr, Seq::empty(), rest)
            }
        }),
    decreases pool.len(),
{
    let np = (pool.len() / 2) as int;
    let nr = acc + round_of(pool, picks.take(np));
    let rest = picks.skip(np);
    if pool.len() >= 2 {
        let w0 = picked(pool[0], pool[1], picks.first());
        lemma_round_acc(pool.skip(2), acc.push(w0), picks.drop_first());
        let np2 = (pool.skip(2).len() / 2) as int;
        assert(np2 == np - 1);
        assert(round_of(pool, picks.take(np)) =~= seq![w0] + round_of(
            pool.skip(2),
            picks.drop_first().take(np2),
        )) by {
            assert forall|j: int| 1 <= j < half_up(pool.len()) implies round_of(
                pool,
                picks.take(np),
            )[j] == round_of(pool.skip(2), picks.drop_first().take(np2))[j - 1] by {
                assert(pool.skip(2)[2 * (j - 1)] == pool[2 * j]);
                if 2 * j + 1 < pool.len() {
                    assert(pool.skip(2)[2 * (j - 1) + 1] == pool[2 * j + 1]);
                    assert(picks.drop_first().take(np2)[j - 1] == picks.take(np)[j]);
                }
            }
        }
        assert(acc.push(w0) + round_of(pool.skip(2), picks.drop_first().take(np2)) =~= nr);
        assert(picks.drop_first().skip(np2) =~= rest);
    } else if pool.len() == 1 {
        assert(round_of(pool, picks.take(0)) =~= seq![pool[0]]);
        assert(nr =~= acc.push(pool[0]));
        assert(rest =~= picks);
        if acc.len() == 0 {
            assert(winner_from(pool, acc, picks) == pool[0]);
            assert(nr.len() == 1 && nr[0] == pool[0]);
        }
    } else {
        assert(round_of(pool, picks.take(0)) =~= Seq::<ItemModel>::empty());
        assert(nr =~= acc);
        assert(rest =~= picks);
    }
}

/// Law: the winner is always one of the entrants — no item is fabricated.
pub proof fn lemma_winner_in_population(pool: Seq<ItemModel>, acc: Seq<ItemModel>, picks: Seq<bool>)
    requires
        pool.len() + acc.len() >= 1,
    ensures
        pool.contains(winner_from(pool, acc, picks)) || acc.contains(winner_from(pool, acc, picks)),
    decreases pool.len() + acc.len(), acc.len(),
{
    let w = winner_from(pool, acc, picks);
    if pool.len() >= 2 {
        let acc2 = acc.push(picked(pool[0], pool[1], picks.first()));
        lemma_winner_in_population(pool.skip(2), acc2, picks.drop_first());
        if pool.skip(2).contains(w) {
            let j = choose|j: int| 0 <= j < pool.skip(2).len() && pool.skip(2)[j] == w;
            assert(pool[j + 2] == w);
        } else {
            let j = choose|j: int| 0 <= j < acc2.len() && acc2[j] == w;
            if j < acc.len() {
                assert(acc[j] == w);
            }
        }
    } else if pool.len() == 1 {
        if acc.len() > 0 {
            let acc2 = acc.push(pool[0]);
            lemma_winner_in_population(acc2, Seq::empty(), picks);
            let j = choose|j: int| 0 <= j < acc2.len() && acc2[j] == w;
            if j < acc.len() {
                assert(acc[j] == w);
            } else {
                assert(pool[0] == w);
            }
        }
    } else {
        if acc.len() >= 2 {
            lemma_winner_in_population(acc, Seq::empty(), picks);
        }
    }
}

/// Where the engine stands: waiting for the round announcement to be
/// acknowledged, waiting for the current pair to be resolved, or done.
#[derive(Clone, Copy, PartialEq, Eq, Structural, Debug)]
pub enum Phase {
    Announcing,
    Choosing,
    Finished,
}

/// The elimination state machine. `pool` is the current round's population in
/// order, `idx` the position of the next unconsumed pair, `next` the items
/// that already advanced to the coming round, in the order the choices were
/// made. `entrants` records the models of the starting population.
pub struct Tournament {
    pub pool: Vec<Item>,
    pub idx: usize,
    pub next: Vec<Item>,
    pub round: u64,
    pub phase: Phase,
    pub entrants: Ghost<Seq<ItemModel>>,
}

impl Tournament {
    /// The entrants of the current round not yet paired off.
    pub open spec fn rest_models(&self) -> Seq<ItemModel> {
        if self.phase is Choosing {
            models(self.pool@.skip(self.idx as int))
        } else {
            models(self.pool@)
        }
    }

    /// The items that already advanced to the coming round.
    pub open spec fn acc_models(&self) -> Seq<ItemModel> {
        if self.phase is Choosing {
            models(self.next@)
        } else {
            Seq::empty()
        }
    }

    /// How many items are still in the running.
    pub open spec fn alive_count(&self) -> nat {
        self.rest_models().len() + self.acc_models().len()
    }

    /// The multiset of items still in the running.
    pub open spec fn alive_ms(&self) -> Multiset<ItemModel> {
        self.rest_models().to_multiset().add(self.acc_models().to_multiset())
    }

    /// Well-formedness: the alive items are drawn from the entrants (no item
    /// is fabricated or duplicated into existence), and the round counter
    /// always accounts for exactly the rounds the remaining population still
    /// needs.
    pub open spec fn wf(&self) -> bool {
        &&& 1 <= self.entrants@.len() <= usize::MAX
        &&& 1 <= self.round
        &&& self.round - 1 + rounds_needed(self.pool@.len()) == rounds_needed(self.entrants@.len())
        &&& self.alive_ms().subset_of(self.entrants@.to_multiset())
        &&& match self.phase {
            Phase::Announcing => self.idx == 0 && self.next@.len() == 0 && self.pool@.len() >= 2,
            Phase::Choosing => {
                &&& self.idx + 2 <= self.pool@.len()
                &&& self.idx % 2 == 0
                &&& self.next@.len() == self.idx / 2
            },
            Phase::Finished => self.idx == 0 && self.next@.len() == 0 && self.pool@.len() == 1,
        }
    }

    /// Start a tournament on the population exactly as given (no shuffle).
    /// A single entrant is immediately the winner; otherwise the first round
    /// is announced.
    pub fn new_in_order(pop: Vec<Item>) -> (t: Tournament)
        requires
            pop@.len() >= 1,
        ensures
            t.wf(),
            t.entrants@ == models(pop@),
            t.pool@ == pop@,
            t.idx == 0,
            t.next@.len() == 0,
            t.round == 1,
            t.phase == (if pop@.len() == 1 {
                Phase::Finished
            } else {
                Phase::Announcing
            }),
    {
        let ghost entrants = models(pop@);
        let phase = if pop.len() == 1 {
            Phase::Finished
        } else {
            Phase::Announcing
        };
        let t = Tournament {
            pool: pop,
            idx: 0,
            next: Vec::new(),
            round: 1,
            phase,
            entrants: Ghost(entrants),
        };
        proof {
            assert(t.acc_models() =~= Seq::<ItemModel>::empty());
            assert(forall|x: ItemModel| #[trigger] t.acc_models().to_multiset().count(x) == 0);
            assert(t.alive_ms().subset_of(t.entrants@.to_multiset()));
        }
        t
    }

    /// Start a tournament after permuting the population uniformly at random:
    /// the one place randomness enters. The entrants are the same items in
    /// some order.
    pub fn new(pop: Vec<Item>) -> (t: Tournament)
        requires
            pop@.len() >= 1,
        ensures
            t.wf(),
            t.entrants@.to_multiset() == models(pop@).to_multiset(),
            t.entrants@.len() == pop@.len(),
            t.round == 1,
            t.phase == (if pop@.len() == 1 {
                Phase::Finished
            } else {
                Phase::Announcing
            }),
    {
        let mut p = pop;
        shuffle_items(&mut p);
        Self::new_in_order(p)
    }

    /// Acknowledge the round announcement; the round's pairings begin.
    pub fn ack_announce(&mut self)
        requires
            old(self).wf(),
            old(self).phase is Announcing,
        ensures
            final(self).wf(),
            final(self).phase is Choosing,
            final(self).pool@ == old(self).pool@,
            final(self).idx == 0,
            final(self).next@ == old(self).next@,
            final(self).round == old(self).round,
            final(self).entrants@ == old(self).entrants@,
    {
        self.phase = Phase::Choosing;
        proof {
            assert(self.pool@.skip(0) =~= self.pool@);
            assert(self.acc_models() =~= Seq::<ItemModel>::empty());
            assert(forall|x: ItemModel| #[trigger] self.acc_models().to_multiset().count(x) == 0);
            assert(forall|x: ItemModel|
                #[trigger] self.alive_ms().count(x) == old(self).alive_ms().count(x));
        }
    }

    /// The left item of the pair now up for comparison.
    pub fn left(&self) -> (r: &Item)
        requires
            self.wf(),
            self.phase is Choosing,
        ensures
            r@ == self.pool@[self.idx as int]@,
    {
        &self.pool[self.idx]
    }

    /// The right item of the pair now up for comparison.
    pub fn right(&self) -> (r: &Item)
        requires
            self.wf(),
            self.phase is Choosing,
        ensures
            r@ == self.pool@[self.idx + 1]@,
    {
        &self.pool[self.idx + 1]
    }

    /// Resolve the pair now up: the chosen item advances, the other is
    /// eliminated. When the round is exhausted an odd leftover advances on a
    /// bye, the survivors become the next round's population in the order the
    /// choices were made, and the round counter moves on; a single survivor
    /// is the winner.
    pub fn resolve(&mut self, pick_right: bool)
        requires
            old(self).wf(),
            old(self).phase is Choosing,
        ensures
            final(self).wf(),
            resolve_transition(*old(self), *final(self), pick_right),
    {
        let ghost pre = *self;
        let ghost w_m = picked(pre.pool@[pre.idx as int]@, pre.pool@[pre.idx + 1]@, pick_right);
        let i = self.idx;
        let n = self.pool.len();
        let w = if pick_right {
            self.pool[i + 1].duplicate()
        } else {
            self.pool[i].duplicate()
        };
        self.next.push(w);
        self.idx = i + 2;
        proof {
            lemma_alive_after_pair(pre.pool@, i as int, pre.next@, w, pre.entrants@.to_multiset());
            assert(models(self.next@) =~= models(pre.next@).push(w_m));
        }
        if n - self.idx >= 2 {
            return;
        }
        // The round is exhausted; an odd leftover advances on a bye.
        let ghost mid_next = self.next@;
        if n - self.idx == 1 {
            let l = self.pool[self.idx].duplicate();
            proof {
                lemma_alive_after_bye(pre.pool@, i + 2, mid_next, l, pre.entrants@.to_multiset());
                assert(models(mid_next.push(l)) =~= models(mid_next).push(pre.pool@.last()@));
            }
            self.next.push(l);
        }
        core::mem::swap(&mut self.pool, &mut self.next);
        self.next.clear();
        self.idx = 0;
        proof {
            assert(rounds_needed(pre.pool@.len()) >= 1);
            assert(pre.entrants@.len() >= 2);
            lemma_rounds_needed_lt(pre.entrants@.len());
        }
        self.round = self.round + 1;
        if self.pool.len() == 1 {
            self.phase = Phase::Finished;
        } else {
            self.phase = Phase::Announcing;
        }
        proof {
            let fin = *self;
            let advanced = models(pre.next@).push(w_m);
            if i + 3 == pre.pool@.len() {
                assert(models(fin.pool@) =~= advanced.push(pre.pool@.last()@));
                assert(forall|x: ItemModel|
                    #[trigger] models(pre.pool@.skip(i + 3)).to_multiset().count(x) == 0);
            } else {
                assert(i + 2 == pre.pool@.len());
                assert(models(fin.pool@) =~= advanced);
                assert(forall|x: ItemModel|
                    #[trigger] models(pre.pool@.skip(i + 2)).to_multiset().count(x) == 0);
            }
            assert(fin.acc_models() =~= Seq::<ItemModel>::empty());
            assert(forall|x: ItemModel| #[trigger] fin.acc_models().to_multiset().count(x) == 0);
            assert(fin.pool@.len() == half_up(pre.pool@.len()));
            assert(rounds_needed(pre.pool@.len()) == 1 + rounds_needed(half_up(pre.pool@.len())));
            assert(fin.alive_ms().subset_of(fin.entrants@.to_multiset()));
        }
    }

    /// The tournament's winner, once the phase is `Finished`. The winner was
    /// one of the entrants: no item is fabricated into existence.
    pub fn winner(self) -> (w: Item)
        requires
            self.wf(),
            self.phase is Finished,
        ensures
            w@ == self.pool@[0]@,
            self.entrants@.contains(w@),
    {
        let mut s = self;
        let w = s.pool.pop().unwrap();
        proof {
            assert(models(self.pool@)[0] == w@);
            assert(models(self.pool@).contains(w@));
            assert(models(self.pool@).to_multiset().count(w@) > 0);
            assert(self.acc_models().to_multiset().count(w@) == 0);
            assert(self.alive_ms().count(w@) > 0);
            assert(self.entrants@.to_multiset().count(w@) > 0);
        }
        w
    }
}

/// Law: a lone entrant is the winner at once — no announcement, no
/// comparison; a tournament that has finished holds exactly one item.
pub proof fn lemma_finished_round_count(t: Tournament)
    requires
        t.wf(),
        t.phase is Finished,
    ensures
        t.pool@.len() == 1,
        t.round - 1 == rounds_needed(t.entrants@.len()),
{
}

/// The exact effect of one [`Tournament::resolve`] call: either the round
/// goes on with the chosen item appended to the advancing ones, or the round
/// ends — the chosen item, then an odd leftover if there is one, complete the
/// survivors, which become the new population.
pub open spec fn resolve_transition(pre: Tournament, post: Tournament, pick_right: bool) -> bool {
    let a = pre.pool@[pre.idx as int]@;
    let b = pre.pool@[pre.idx + 1]@;
    let w = picked(a, b, pick_right);
    let advanced = models(pre.next@).push(w);
    &&& post.entrants@ == pre.entrants@
    &&& if pre.idx + 4 <= pre.pool@.len() {
        &&& post.phase is Choosing
        &&& post.round == pre.round
        &&& post.pool@ == pre.pool@
        &&& post.idx == pre.idx + 2
        &&& models(post.next@) == advanced
    } else {
        let finals = if pre.idx + 3 == pre.pool@.len() {
            advanced.push(pre.pool@.last()@)
        } else {
            advanced
        };
        &&& models(post.pool@) == finals
        &&& post.idx == 0
        &&& post.next@.len() == 0
        &&& post.round == pre.round + 1
        &&& post.phase == (if finals.len() == 1 {
            Phase::Finished
        } else {
            Phase::Announcing
        })
    }
}

/// Run the whole tournament with a scripted choice sequence: the `i`-th
/// comparison is resolved by `picks[i]`, `true` choosing the right item. A
/// tournament over `n` entrants makes exactly `n - 1` comparisons, whatever
/// the round sizes. It terminates for every population and choice sequence;
/// the winner is the one `winner_from` names, drawn from the entrants, and
/// the rounds played are exactly `rounds_needed(n)`.
pub fn run_with_picks(pop: Vec<Item>, picks: &Vec<bool>) -> (r: (Item, u64))
    requires
        pop@.len() >= 1,
        picks@.len() + 1 == pop@.len(),
    ensures
        r.0@ == winner_from(models(pop@), Seq::empty(), picks@),
        models(pop@).contains(r.0@),
        r.1 == rounds_needed(pop@.len()),
{
    let ghost init = models(pop@);
    let ghost n0 = pop@.len();
    let mut t = Tournament::new_in_order(pop);
    let mut used: usize = 0;
    proof {
        assert(picks@.skip(0) =~= picks@);
        assert(t.rest_models() =~= init);
        assert(t.acc_models() =~= Seq::<ItemModel>::empty());
    }
    while t.phase != Phase::Finished
        invariant
            t.wf(),
            t.entrants@ == init,
            init.len() == n0,
            1 <= n0 <= usize::MAX,
            picks@.len() + 1 == n0,
            used <= picks@.len(),
            used + t.alive_count() == n0,
            winner_from(t.rest_models(), t.acc_models(), picks@.skip(used as int)) == winner_from(
                init,
                Seq::empty(),
                picks@,
            ),
        decreases 2 * t.alive_count() + (if t.phase is Announcing {
            1int
        } else {
            0int
        }),
    {
        if t.phase == Phase::Announcing {
            let ghost pre = t;
            t.ack_announce();
            proof {
                assert(t.rest_models() =~= pre.rest_models());
                assert(t.acc_models() =~= pre.acc_models());
            }
        } else {
            let ghost pre = t;
            let pr = picks[used];
            t.resolve(pr);
            used = used + 1;
            proof {
                lemma_run_step(pre, t, pr, picks@, (used - 1) as int);
            }
        }
    }
    let rounds = t.round - 1;
    proof {
        assert(t.rest_models() =~= models(t.pool@));
        assert(winner_from(t.rest_models(), t.acc_models(), picks@.skip(used as int)) == models(
            t.pool@,
        )[0]);
        lemma_winner_in_population(init, Seq::empty(), picks@);
    }
    let w = t.winner();
    (w, rounds)
}

/// One `resolve` step keeps the scripted run aimed at the same winner: the
/// engine transition matches one unfolding of `winner_from`.
proof fn lemma_run_step(pre: Tournament, post: Tournament, pr: bool, picks: Seq<bool>, used: int)
    requires
        pre.wf(),
        pre.phase is Choosing,
        post.wf(),
        resolve_transition(pre, post, pr),
        0 <= used < picks.len(),
        pr == picks[used],
    ensures
        winner_from(post.rest_models(), post.acc_models(), picks.skip(used + 1)) == winner_from(
            pre.rest_models(),
            pre.acc_models(),
            picks.skip(used),
        ),
        post.alive_count() + 1 == pre.alive_count(),
{
    let i = pre.idx as int;
    let rest = models(pre.pool@.skip(i));
    let acc = models(pre.next@);
    let w_m = picked(pre.pool@[i]@, pre.pool@[i + 1]@, pr);
    let acc2 = acc.push(w_m);
    assert(rest[0] == pre.pool@[i]@);
    assert(rest[1] == pre.pool@[i + 1]@);
    assert(picks.skip(used).first() == picks[used]);
    assert(picks.skip(used).drop_first() =~= picks.skip(used + 1));
    assert(rest.skip(2) =~= models(pre.pool@.skip(i + 2)));
    assert(winner_from(rest, acc, picks.skip(used)) == winner_from(
        models(pre.pool@.skip(i + 2)),
        acc2,
        picks.skip(used + 1),
    ));
    if i + 4 <= pre.pool@.len() {
        assert(post.rest_models() =~= models(pre.pool@.skip(i + 2)));
        assert(post.acc_models() == acc2);
    } else if i + 3 == pre.pool@.len() {
        let finals = acc2.push(pre.pool@.last()@);
        assert(models(pre.pool@.skip(i + 2)) =~= seq![pre.pool@.last()@]);
        assert(winner_from(models(pre.pool@.skip(i + 2)), acc2, picks.skip(used + 1))
            == winner_from(finals, Seq::empty(), picks.skip(used + 1)));
        assert(finals.len() >= 2);
        assert(post.rest_models() =~= finals);
        assert(post.acc_models() =~= Seq::<ItemModel>::empty());
    } else {
        assert(i + 2 == pre.pool@.len());
        assert(models(pre.pool@.skip(i + 2)) =~= Seq::<ItemModel>::empty());
        assert(post.rest_models() =~= acc2);
        assert(post.acc_models() =~= Seq::<ItemModel>::empty());
        if acc2.len() == 1 {
            assert(winner_from(models(pre.pool@.skip(i + 2)), acc2, picks.skip(used + 1)) == acc2[0]);
            assert(winner_from(post.rest_models(), post.acc_models(), picks.skip(used + 1))
                == post.rest_models()[0]);
        } else {
            assert(winner_from(models(pre.pool@.skip(i + 2)), acc2, picks.skip(used + 1))
                == winner_from(acc2, Seq::empty(), picks.skip(used + 1)));
        }
    }
}

/// After one pair is consumed and the chosen item advances, the alive items
/// are still drawn from the entrants.
proof fn lemma_alive_after_pair(
    pool: Seq<Item>,
    idx: int,
    nxt: Seq<Item>,
    w: Item,
    init: Multiset<ItemModel>,
)
    requires
        0 <= idx,
        idx + 2 <= pool.len(),
        w@ == pool[idx]@ || w@ == pool[idx + 1]@,
        models(pool.skip(idx)).to_multiset().add(models(nxt).to_multiset()).subset_of(init),
    ensures
        models(pool.skip(idx + 2)).to_multiset().add(
            models(nxt.push(w)).to_multiset(),
        ).subset_of(init),
{
    let rest = models(pool.skip(idx + 2));
    let ma = pool[idx]@;
    let mb = pool[idx + 1]@;
    assert(models(pool.skip(idx)) =~= rest.insert(0, mb).insert(0, ma));
    vstd::seq_lib::to_multiset_insert(rest, 0, mb);
    vstd::seq_lib::to_multiset_insert(rest.insert(0, mb), 0, ma);
    assert(models(nxt.push(w)) =~= models(nxt).push(w@));
}

/// After an odd leftover advances on a bye, the alive items are still drawn
/// from the entrants.
proof fn lemma_alive_after_bye(
    pool: Seq<Item>,
    idx: int,
    nxt: Seq<Item>,
    l: Item,
    init: Multiset<ItemModel>,
)
    requires
        0 <= idx,
        idx + 1 <= pool.len(),
        l@ == pool[idx]@,
        models(pool.skip(idx)).to_multiset().add(models(nxt).to_multiset()).subset_of(init),
    ensures
        models(pool.skip(idx + 1)).to_multiset().add(
            models(nxt.push(l)).to_multiset(),
        ).subset_of(init),
{
    let rest = models(pool.skip(idx + 1));
    assert(models(pool.skip(idx)) =~= rest.insert(0, pool[idx]@));
    vstd::seq_lib::to_multiset_insert(rest, 0, pool[idx]@);
    assert(models(nxt.push(l)) =~= models(nxt).push(l@));
}

/// Relies on rand's `SliceRandom::shuffle` (Fisher–Yates over the whole
/// slice, swapping in place): the elements are permuted, so their multiset
/// and the length are unchanged, whatever randomness was drawn.
#[verifier::external_body]
fn shuffle_items(v: &mut Vec<Item>)
    ensures
        final(v)@.len() == old(v)@.len(),
        models(final(v)@).to_multiset() == models(old(v)@).to_multiset(),
{
    SliceRandom::shuffle(v.as_mut_slice(), &mut rand::thread_rng());
}

} // verus!
