use vstd::prelude::*;
use crate::structs::{log_of, rgb, dark_red, orange, red, white, Color, DeathCallback, Fighter, Game, Object};
use crate::text::{
    attack_message, attack_text, monster_death_message, monster_death_text, no_effect_message,
    no_effect_text, player_death_message, player_death_text, remains_name, remains_of,
};

verus! {

pub open spec fn power_of(o: Object) -> int {
    match o.fighter {
        Some(f) => f.power as int,
        None => 0,
    }
}

pub open spec fn defense_of(o: Object) -> int {
    match o.fighter {
        Some(f) => f.defense as int,
        None => 0,
    }
}

/// Hit points after taking `damage`; damage that is not positive changes nothing.
pub open spec fn hp_after(f: Fighter, damage: int) -> int {
    if damage > 0 {
        f.hp - damage
    } else {
        f.hp as int
    }
}

/// Whether applying `damage` to `o` kills it: it has a fighter whose hit
/// points drop to zero or below while it is still alive.
pub open spec fn kills(o: Object, damage: int) -> bool {
    match o.fighter {
        Some(f) => hp_after(f, damage) <= 0 && o.alive,
        None => false,
    }
}

/// `after` is `before` once the death transition selected by `cb` has run.
pub open spec fn died_as(cb: DeathCallback, before: Object, after: Object) -> bool {
    match cb {
        DeathCallback::Player => after == (Object { char: '%', color: rgb(191, 0, 0), ..before }),
        DeathCallback::Monster => {
            &&& after.x == before.x
            &&& after.y == before.y
            &&& after.char == '%'
            &&& after.color == rgb(191, 0, 0)
            &&& after.name@ == remains_name(before.name@)
            &&& !after.blocks
            &&& after.alive == before.alive
            &&& after.fighter is None
            &&& after.ai is None
            &&& after.item == before.item
        },
    }
}

/// The message that the death transition selected by `cb` adds for `o`.
pub open spec fn death_entry(cb: DeathCallback, o: Object) -> (Seq<char>, Color) {
    match cb {
        DeathCallback::Player => (player_death_text(), rgb(255, 0, 0)),
        DeathCallback::Monster => (monster_death_text(o.name@), rgb(255, 127, 0)),
    }
}

/// `after` is `before` after taking `damage`, death transition included.
pub open spec fn damaged(before: Object, damage: int, after: Object) -> bool {
    match before.fighter {
        None => after == before,
        Some(f) => {
            let hit = Object { fighter: Some(Fighter { hp: hp_after(f, damage) as i32, ..f }), ..before };
            if kills(before, damage) {
                died_as(f.on_death, Object { alive: false, ..hit }, after)
            } else {
                after == hit
            }
        },
    }
}

/// The messages that taking `damage` adds: one when it kills, none otherwise.
pub open spec fn damage_log(before: Object, damage: int) -> Seq<(Seq<char>, Color)> {
    if kills(before, damage) {
        seq![death_entry(before.fighter.unwrap().on_death, before)]
    } else {
        Seq::empty()
    }
}

/// Whether `o` can take `damage` without its hit points leaving `i32`.
pub open spec fn damage_fits(o: Object, damage: int) -> bool {
    match o.fighter {
        Some(f) => hp_after(f, damage) >= i32::MIN,
        None => true,
    }
}

/// `g1` is `g0` with `entries` appended to its messages.
pub open spec fn logged(g0: &Game, g1: &Game, entries: Seq<(Seq<char>, Color)>) -> bool {
    &&& g1.map == g0.map
    &&& g1.inventory == g0.inventory
    &&& log_of(&g1.messages) == log_of(&g0.messages) + entries
}

/// The damage of one strike and what it leaves fit in `i32`.
pub open spec fn attack_fits(attacker: Object, target: Object) -> bool {
    &&& i32::MIN <= power_of(attacker) - defense_of(target) <= i32::MAX
    &&& damage_fits(target, power_of(attacker) - defense_of(target))
}

/// `t1` and `g1` are `t0` and `g0` once `a` has struck `t0`: a message that
/// reports the strike, then the damage when it is positive.
pub open spec fn attacked(a: Object, t0: Object, t1: Object, g0: &Game, g1: &Game) -> bool {
    let damage = power_of(a) - defense_of(t0);
    if damage > 0 {
        &&& damaged(t0, damage, t1)
        &&& logged(g0, g1, seq![(attack_text(a.name@, t0.name@, damage), rgb(255, 255, 255))] + damage_log(t0, damage))
    } else {
        &&& t1 == t0
        &&& logged(g0, g1, seq![(no_effect_text(a.name@, t0.name@), rgb(255, 255, 255))])
    }
}

pub fn player_death(player: &mut Object, game: &mut Game)
    ensures
        died_as(DeathCallback::Player, *old(player), *final(player)),
        logged(old(game), final(game), seq![death_entry(DeathCallback::Player, *old(player))]),
{
    let ghost g0 = *game;
    game.messages.add(player_death_message(), red());
    assert(log_of(&game.messages) =~= log_of(&g0.messages) + seq![death_entry(DeathCallback::Player, *player)]);
    player.char = '%';
    player.color = dark_red();
}

pub fn monster_death(monster: &mut Object, game: &mut Game)
    ensures
        died_as(DeathCallback::Monster, *old(monster), *final(monster)),
        logged(old(game), final(game), seq![death_entry(DeathCallback::Monster, *old(monster))]),
{
    let ghost g0 = *game;
    game.messages.add(monster_death_message(&monster.name), orange());
    assert(log_of(&game.messages) =~= log_of(&g0.messages) + seq![death_entry(DeathCallback::Monster, *monster)]);
    monster.char = '%';
    monster.color = dark_red();
    monster.blocks = false;
    monster.fighter = None;
    monster.ai = None;
    monster.name = remains_of(&monster.name);
}

impl DeathCallback {
    /// Runs the death transition that this tag selects.
    pub fn callback(self, object: &mut Object, game: &mut Game)
        ensures
            died_as(self, *old(object), *final(object)),
            logged(old(game), final(game), seq![death_entry(self, *old(object))]),
    {
        match self {
            DeathCallback::Player => player_death(object, game),
            DeathCallback::Monster => monster_death(object, game),
        }
    }
}

impl Object {
    /// Subtracts a positive `damage` from the hit points; the first time they
    /// reach zero or below the object is marked dead and its death transition
    /// runs, once.
    pub fn take_damage(&mut self, damage: i32, game: &mut Game)
        requires
            damage_fits(*old(self), damage as int),
        ensures
            damaged(*old(self), damage as int, *final(self)),
            logged(old(game), final(game), damage_log(*old(self), damage as int)),
    {
        let ghost g0 = *game;
        if let Some(f) = self.fighter {
            if damage > 0 {
                self.fighter = Some(Fighter { hp: f.hp - damage, ..f });
            }
            if let Some(f2) = self.fighter {
                if f2.hp <= 0 && self.alive {
                    self.alive = false;
                    f2.on_death.callback(self, game);
                    return;
                }
            }
        }
        assert(log_of(&game.messages) =~= log_of(&g0.messages) + Seq::empty());
    }

    /// Strikes `target` for the attacker's power minus the target's defense
    /// (a missing fighter counts as zero); only positive damage is applied.
    pub fn attack(&mut self, target: &mut Object, game: &mut Game)
        requires
            attack_fits(*old(self), *old(target)),
        ensures
            *final(self) == *old(self),
            attacked(*old(self), *old(target), *final(target), old(game), final(game)),
    {
        let ghost g0 = *game;
        let ghost t0 = *target;
        let power: i32 = match self.fighter {
            Some(f) => f.power,
            None => 0,
        };
        let defense: i32 = match target.fighter {
            Some(f) => f.defense,
            None => 0,
        };
        let damage = power - defense;
        if damage > 0 {
            game.messages.add(attack_message(&self.name, &target.name, damage), white());
            target.take_damage(damage, game);
            assert(log_of(&game.messages) =~= log_of(&g0.messages) + (seq![(attack_text(self.name@, t0.name@, damage as int), rgb(255, 255, 255))]
                + damage_log(t0, damage as int)));
        } else {
            game.messages.add(no_effect_message(&self.name, &target.name), white());
            assert(log_of(&game.messages) =~= log_of(&g0.messages) + seq![(no_effect_text(self.name@, t0.name@), rgb(255, 255, 255))]);
        }
    }

    /// Raises the hit points by `amount`, never above the maximum; an object
    /// without a fighter is unchanged.
    pub fn heal(&mut self, amount: i32)
        requires
            old(self).fighter is Some ==> old(self).fighter.unwrap().hp + amount <= i32::MAX
                && old(self).fighter.unwrap().hp + amount >= i32::MIN,
        ensures
            match old(self).fighter {
                None => *final(self) == *old(self),
                Some(f) => *final(self) == (Object {
                    fighter: Some(Fighter {
                        hp: if f.hp + amount > f.max_hp { f.max_hp } else { (f.hp + amount) as i32 },
                        ..f
                    }),
                    ..*old(self)
                }),
            },
    {
        if let Some(f) = self.fighter {
            let mut hp = f.hp + amount;
            if hp > f.max_hp {
                hp = f.max_hp;
            }
            self.fighter = Some(Fighter { hp, ..f });
        }
    }
}

/// Death is dispatched at most once: once a hit has killed an object, a
/// further hit of any amount adds no message and leaves it dead; a dead
/// monster is left exactly as it was.
pub proof fn lemma_death_dispatched_once(o0: Object, d1: int, o1: Object, d2: int, o2: Object)
    requires
        kills(o0, d1),
        damaged(o0, d1, o1),
        damaged(o1, d2, o2),
    ensures
        damage_log(o1, d2) == Seq::<(Seq<char>, Color)>::empty(),
        !o2.alive,
        o0.fighter.unwrap().on_death == DeathCallback::Monster ==> o2 == o1,
{
}

} // verus!
