use vstd::prelude::*;

verus! {

/// An enemy (a cat) at position `pos`; `collected` turns true once the
/// player has caught it.
pub struct Enemy<P> {
    pub pos: P,
    pub collected: bool,
}

impl<P> Enemy<P> {
    pub fn new(pos: P) -> (e: Self)
        ensures
            e.pos == pos,
            !e.collected,
    {
        Self { pos, collected: false }
    }

    /// Marks the enemy as caught.
    pub fn collect(&mut self)
        ensures
            final(self).collected,
            final(self).pos == old(self).pos,
    {
        self.collected = true;
    }
}

/// How many of the enemies are caught in one round: those not caught before
/// that the player is near (`near[i]` tells whether the player is near
/// enemy `i`).
pub open spec fn newly_caught<P>(enemies: Seq<Enemy<P>>, near: Seq<bool>) -> nat
    decreases enemies.len(),
{
    if enemies.len() == 0 {
        0
    } else {
        newly_caught(enemies.drop_last(), near.take(enemies.len() - 1)) + if !enemies.last().collected
            && near[enemies.len() - 1] {
            1nat
        } else {
            0nat
        }
    }
}

/// The enemies left after a round: those neither caught before nor near the
/// player, in their order.
pub open spec fn survivors<P>(enemies: Seq<Enemy<P>>, near: Seq<bool>) -> Seq<Enemy<P>>
    decreases enemies.len(),
{
    if enemies.len() == 0 {
        Seq::empty()
    } else {
        let rest = survivors(enemies.drop_last(), near.take(enemies.len() - 1));
        if enemies.last().collected || near[enemies.len() - 1] {
            rest
        } else {
            rest.push(enemies.last())
        }
    }
}

/// The enemies left after the rounds `rounds` (each the `near` flags of
/// one round) of a hunt that began with `start`.
pub open spec fn enemies_after<P>(start: Seq<Enemy<P>>, rounds: Seq<Seq<bool>>) -> Seq<Enemy<P>>
    decreases rounds.len(),
{
    if rounds.len() == 0 {
        start
    } else {
        survivors(enemies_after(start, rounds.drop_last()), rounds.last())
    }
}

/// The enemies caught over the rounds `rounds` of a hunt that began with
/// `start`: the sum of the catches of every round.
pub open spec fn catches_after<P>(start: Seq<Enemy<P>>, rounds: Seq<Seq<bool>>) -> nat
    decreases rounds.len(),
{
    if rounds.len() == 0 {
        0
    } else {
        catches_after(start, rounds.drop_last()) + newly_caught(enemies_after(start, rounds.drop_last()), rounds.last())
    }
}

/// The enemies still at large and the number caught so far, with the
/// enemies the hunt began with and the rounds played since.
pub struct Hunt<P> {
    enemies: Vec<Enemy<P>>,
    gatos: u32,
    start: Ghost<Seq<Enemy<P>>>,
    rounds: Ghost<Seq<Seq<bool>>>,
}

impl<P> Hunt<P> {
    #[verifier::type_invariant]
    spec fn follows_rounds(&self) -> bool {
        &&& self.gatos + self.enemies@.len() <= u32::MAX
        &&& self.enemies@ == enemies_after(self.start@, self.rounds@)
        &&& self.gatos == catches_after(self.start@, self.rounds@)
    }

    pub closed spec fn enemies_view(&self) -> Seq<Enemy<P>> {
        self.enemies@
    }

    pub closed spec fn caught(&self) -> u32 {
        self.gatos
    }

    /// The enemies the hunt began with.
    pub closed spec fn started_with(&self) -> Seq<Enemy<P>> {
        self.start@
    }

    /// The `near` flags of every round played so far, in order.
    pub closed spec fn rounds(&self) -> Seq<Seq<bool>> {
        self.rounds@
    }

    /// A hunt for the given enemies, with no round played and none caught.
    pub fn new(enemies: Vec<Enemy<P>>) -> (h: Self)
        requires
            enemies@.len() <= u32::MAX,
        ensures
            h.enemies_view() == enemies@,
            h.caught() == 0,
            h.started_with() == enemies@,
            h.rounds() == Seq::<Seq<bool>>::empty(),
    {
        let ghost start = enemies@;
        Hunt { enemies, gatos: 0, start: Ghost(start), rounds: Ghost(Seq::empty()) }
    }

    /// The enemies still at large: those the rounds so far have left.
    pub fn enemies(&self) -> (e: &Vec<Enemy<P>>)
        ensures
            e@ == self.enemies_view(),
            e@ == enemies_after(self.started_with(), self.rounds()),
    {
        proof {
            use_type_invariant(self);
        }
        &self.enemies
    }
}

/// The number of enemies caught so far: the sum of the catches of every
/// round since the hunt began.
#[allow(non_snake_case)]
pub fn getGatos<P>(hunt: &Hunt<P>) -> (n: u32)
    ensures
        n == hunt.caught(),
        n == catches_after(hunt.started_with(), hunt.rounds()),
{
    proof {
        use_type_invariant(hunt);
    }
    hunt.gatos
}

/// Every enemy is counted as caught or stays in the hunt: a round never
/// counts more catches than enemies it drops.
pub proof fn lemma_round_accounts<P>(enemies: Seq<Enemy<P>>, near: Seq<bool>)
    requires
        near.len() == enemies.len(),
    ensures
        newly_caught(enemies, near) + survivors(enemies, near).len() <= enemies.len(),
        (forall|i: int| 0 <= i < enemies.len() ==> !(#[trigger] enemies[i]).collected) ==> newly_caught(enemies, near)
            + survivors(enemies, near).len() == enemies.len(),
        forall|i: int| 0 <= i < survivors(enemies, near).len() ==> !(#[trigger] survivors(enemies, near)[i]).collected,
    decreases enemies.len(),
{
    if enemies.len() > 0 {
        let e1 = enemies.drop_last();
        let n1 = near.take(enemies.len() - 1);
        lemma_round_accounts(e1, n1);
        if forall|i: int| 0 <= i < enemies.len() ==> !(#[trigger] enemies[i]).collected {
            assert forall|i: int| 0 <= i < e1.len() implies !(#[trigger] e1[i]).collected by {
                assert(e1[i] == enemies[i]);
            }
        }
        let s = survivors(enemies, near);
        let s1 = survivors(e1, n1);
        assert forall|i: int| 0 <= i < s.len() implies !(#[trigger] s[i]).collected by {
            if i < s1.len() {
                assert(s[i] == s1[i]);
            }
        }
    }
}

/// Every enemy left after a round is one of the enemies before it that was
/// neither caught before nor near.
proof fn lemma_survivors_from<P>(enemies: Seq<Enemy<P>>, near: Seq<bool>)
    requires
        near.len() == enemies.len(),
    ensures
        forall|i: int|
            0 <= i < survivors(enemies, near).len() ==> exists|k: int|
                0 <= k < enemies.len() && enemies[k] == #[trigger] survivors(enemies, near)[i] && !near[k]
                    && !enemies[k].collected,
    decreases enemies.len(),
{
    if enemies.len() > 0 {
        let e1 = enemies.drop_last();
        let n1 = near.take(enemies.len() - 1);
        lemma_survivors_from(e1, n1);
        let s = survivors(enemies, near);
        let s1 = survivors(e1, n1);
        assert forall|i: int| 0 <= i < s.len() implies exists|k: int|
            0 <= k < enemies.len() && enemies[k] == #[trigger] s[i] && !near[k] && !enemies[k].collected by {
            if i < s1.len() {
                assert(s[i] == s1[i]);
                let k = choose|k: int| 0 <= k < e1.len() && e1[k] == #[trigger] s1[i] && !n1[k] && !e1[k].collected;
                assert(enemies[k] == e1[k] && near[k] == n1[k]);
            } else {
                let k = enemies.len() - 1;
                assert(enemies[k] == s[i]);
            }
        }
    }
}

/// A round in which the player is near no enemy, while none is caught yet,
/// catches nothing and leaves every enemy in place.
pub proof fn lemma_quiet_round<P>(enemies: Seq<Enemy<P>>, near: Seq<bool>)
    requires
        near.len() == enemies.len(),
        forall|i: int| 0 <= i < enemies.len() ==> !(#[trigger] enemies[i]).collected,
        forall|i: int| 0 <= i < near.len() ==> !(#[trigger] near[i]),
    ensures
        newly_caught(enemies, near) == 0,
        survivors(enemies, near) == enemies,
    decreases enemies.len(),
{
    if enemies.len() > 0 {
        let e1 = enemies.drop_last();
        let n1 = near.take(enemies.len() - 1);
        assert forall|i: int| 0 <= i < e1.len() implies !(#[trigger] e1[i]).collected by {
            assert(e1[i] == enemies[i]);
        }
        assert forall|i: int| 0 <= i < n1.len() implies !(#[trigger] n1[i]) by {
            assert(n1[i] == near[i]);
        }
        lemma_quiet_round(e1, n1);
        assert(!near[enemies.len() - 1]);
        assert(e1.push(enemies.last()) =~= enemies);
    }
}

/// The `near` flags of a round in which the player is near exactly the
/// enemies whose position satisfies `is_near`.
pub open spec fn near_flags<P>(enemies: Seq<Enemy<P>>, is_near: spec_fn(P) -> bool) -> Seq<bool> {
    Seq::new(enemies.len(), |i: int| is_near(enemies[i].pos))
}

/// Playing a second round right after a first one, with the player near the
/// same positions, catches nothing more and changes nothing.
pub proof fn lemma_round_repeat<P>(enemies: Seq<Enemy<P>>, is_near: spec_fn(P) -> bool)
    ensures
        newly_caught(survivors(enemies, near_flags(enemies, is_near)), near_flags(
            survivors(enemies, near_flags(enemies, is_near)),
            is_near,
        )) == 0,
        survivors(survivors(enemies, near_flags(enemies, is_near)), near_flags(
            survivors(enemies, near_flags(enemies, is_near)),
            is_near,
        )) == survivors(enemies, near_flags(enemies, is_near)),
{
    let near = near_flags(enemies, is_near);
    let s = survivors(enemies, near);
    lemma_survivors_from(enemies, near);
    lemma_round_accounts(enemies, near);
    let near2 = near_flags(s, is_near);
    assert forall|i: int| 0 <= i < near2.len() implies !(#[trigger] near2[i]) by {
        let k = choose|k: int| 0 <= k < enemies.len() && enemies[k] == #[trigger] s[i] && !near[k] && !enemies[k].collected;
        assert(near[k] == is_near(enemies[k].pos));
    }
    lemma_quiet_round(s, near2);
}

/// Over any rounds of a hunt that began with no enemy caught, every enemy is
/// either counted once among the catches or still at large, and none at
/// large is marked caught.
pub proof fn lemma_catches_counted<P>(start: Seq<Enemy<P>>, rounds: Seq<Seq<bool>>)
    requires
        forall|i: int| 0 <= i < start.len() ==> !(#[trigger] start[i]).collected,
        forall|k: int|
            0 <= k < rounds.len() ==> (#[trigger] rounds[k]).len() == enemies_after(start, rounds.take(k)).len(),
    ensures
        catches_after(start, rounds) + enemies_after(start, rounds).len() == start.len(),
        forall|i: int|
            0 <= i < enemies_after(start, rounds).len() ==> !(#[trigger] enemies_after(start, rounds)[i]).collected,
    decreases rounds.len(),
{
    if rounds.len() > 0 {
        let r1 = rounds.drop_last();
        assert forall|k: int| 0 <= k < r1.len() implies (#[trigger] r1[k]).len() == enemies_after(start, r1.take(k)).len() by {
            assert(r1[k] == rounds[k]);
            assert(r1.take(k) =~= rounds.take(k));
        }
        lemma_catches_counted(start, r1);
        let k = rounds.len() - 1;
        assert(rounds.take(k) =~= r1);
        assert(rounds[k] == rounds.last());
        lemma_round_accounts(enemies_after(start, r1), rounds.last());
    }
}

/// One round of the hunt: every enemy not yet caught that the player is near
/// (`near[i]` for enemy `i`) is caught and counted, and caught enemies leave
/// the hunt.
pub fn update_enemies<P>(hunt: &mut Hunt<P>, near: &Vec<bool>)
    requires
        near@.len() == old(hunt).enemies_view().len(),
    ensures
        final(hunt).caught() == old(hunt).caught() + newly_caught(old(hunt).enemies_view(), near@),
        final(hunt).enemies_view() == survivors(old(hunt).enemies_view(), near@),
        final(hunt).started_with() == old(hunt).started_with(),
        final(hunt).rounds() == old(hunt).rounds().push(near@),
{
    proof {
        use_type_invariant(&*hunt);
        lemma_round_accounts(hunt.enemies@, near@);
    }
    let ghost old_enemies = hunt.enemies@;
    let ghost old_gatos = hunt.gatos;
    let ghost start = hunt.start@;
    let ghost rounds = hunt.rounds@.push(near@);
    let mut taken = Hunt::new(Vec::new());
    std::mem::swap(hunt, &mut taken);
    let Hunt { enemies: mut old_list, gatos, start: _, rounds: _ } = taken;
    let mut kept: Vec<Enemy<P>> = Vec::new();
    let mut count: u32 = gatos;
    let n = old_list.len();
    let mut i: usize = 0;
    while i < n
        invariant
            n == old_enemies.len(),
            near@.len() == n,
            i <= n,
            old_gatos + old_enemies.len() <= u32::MAX,
            old_list@ == old_enemies.skip(i as int),
            count == old_gatos + newly_caught(old_enemies.take(i as int), near@.take(i as int)),
            kept@ == survivors(old_enemies.take(i as int), near@.take(i as int)),
        decreases n - i,
    {
        proof {
            assert(old_enemies.take(i + 1).drop_last() =~= old_enemies.take(i as int));
            assert(near@.take(i + 1).take(i as int) =~= near@.take(i as int));
            lemma_round_accounts(old_enemies.take(i + 1), near@.take(i + 1));
            lemma_round_accounts(old_enemies.take(i as int), near@.take(i as int));
            assert(old_enemies.take(i + 1).last() == old_enemies[i as int]);
            assert(old_list@[0] == old_enemies[i as int]);
        }
        let mut enemy = old_list.remove(0);
        proof {
            assert(old_list@ =~= old_enemies.skip(i + 1));
        }
        if !enemy.collected && near[i] {
            enemy.collect();
            count = count + 1;
        }
        if !enemy.collected {
            kept.push(enemy);
        }
        i = i + 1;
    }
    proof {
        assert(old_enemies.take(n as int) =~= old_enemies);
        assert(near@.take(n as int) =~= near@);
        lemma_round_accounts(old_enemies, near@);
    }
    proof {
        assert(rounds.drop_last() =~= old(hunt).rounds@);
    }
    *hunt = Hunt { enemies: kept, gatos: count, start: Ghost(start), rounds: Ghost(rounds) };
}

} // verus!
