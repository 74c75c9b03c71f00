use vstd::prelude::*;
use vstd::string::StringExecFns;

verus! {

pub open spec fn digit_char(d: int) -> char {
    if d == 0 { '0' }
    else if d == 1 { '1' }
    else if d == 2 { '2' }
    else if d == 3 { '3' }
    else if d == 4 { '4' }
    else if d == 5 { '5' }
    else if d == 6 { '6' }
    else if d == 7 { '7' }
    else if d == 8 { '8' }
    else { '9' }
}

/// The decimal digits of a natural number, most significant first.
pub open spec fn digits(n: nat) -> Seq<char>
    decreases n,
{
    if n < 10 {
        seq![digit_char(n as int)]
    } else {
        digits(n / 10) + seq![digit_char((n % 10) as int)]
    }
}

/// An integer written in decimal, with a leading `-` when negative.
pub open spec fn decimal(n: int) -> Seq<char> {
    if n < 0 {
        seq!['-'] + digits((-n) as nat)
    } else {
        digits(n as nat)
    }
}

/// Relies on `i32`'s `Display` (through `ToString::to_string`): base ten, a
/// minus sign for negative values, no padding.
#[verifier::external_body]
pub(crate) fn int_to_string(n: i32) -> (s: String)
    ensures
        s@ == decimal(n as int),
{
    n.to_string()
}

pub open spec fn attack_text(attacker: Seq<char>, target: Seq<char>, damage: int) -> Seq<char> {
    attacker + " attacks "@ + target + " for "@ + decimal(damage) + " hit points."@
}

pub open spec fn no_effect_text(attacker: Seq<char>, target: Seq<char>) -> Seq<char> {
    attacker + " attacks "@ + target + " but it has no effect!"@
}

pub open spec fn player_death_text() -> Seq<char> {
    "You died!"@
}

pub open spec fn monster_death_text(name: Seq<char>) -> Seq<char> {
    name + " is dead!"@
}

pub open spec fn remains_name(name: Seq<char>) -> Seq<char> {
    "remains of "@ + name
}

pub open spec fn unconfused_text(name: Seq<char>) -> Seq<char> {
    "The "@ + name + " is no longer confused!"@
}

pub open spec fn picked_up_text(name: Seq<char>) -> Seq<char> {
    "You picked up a "@ + name + "!"@
}

pub open spec fn inventory_full_text(name: Seq<char>) -> Seq<char> {
    "Your inventory is full, cannot pick up "@ + name + "."@
}

pub fn attack_message(attacker: &String, target: &String, damage: i32) -> (s: String)
    ensures
        s@ == attack_text(attacker@, target@, damage as int),
{
    let mut s = attacker.clone();
    s.append(" attacks ");
    s.append(target.as_str());
    s.append(" for ");
    let d = int_to_string(damage);
    s.append(d.as_str());
    s.append(" hit points.");
    s
}

pub fn no_effect_message(attacker: &String, target: &String) -> (s: String)
    ensures
        s@ == no_effect_text(attacker@, target@),
{
    let mut s = attacker.clone();
    s.append(" attacks ");
    s.append(target.as_str());
    s.append(" but it has no effect!");
    s
}

pub fn player_death_message() -> (s: String)
    ensures
        s@ == player_death_text(),
{
    "You died!".to_owned()
}

pub fn monster_death_message(name: &String) -> (s: String)
    ensures
        s@ == monster_death_text(name@),
{
    let mut s = name.clone();
    s.append(" is dead!");
    s
}

pub fn remains_of(name: &String) -> (s: String)
    ensures
        s@ == remains_name(name@),
{
    let mut s = "remains of ".to_owned();
    s.append(name.as_str());
    s
}

pub fn unconfused_message(name: &String) -> (s: String)
    ensures
        s@ == unconfused_text(name@),
{
    let mut s = "The ".to_owned();
    s.append(name.as_str());
    s.append(" is no longer confused!");
    s
}

pub fn picked_up_message(name: &String) -> (s: String)
    ensures
        s@ == picked_up_text(name@),
{
    let mut s = "You picked up a ".to_owned();
    s.append(name.as_str());
    s.append("!");
    s
}

pub fn inventory_full_message(name: &String) -> (s: String)
    ensures
        s@ == inventory_full_text(name@),
{
    let mut s = "Your inventory is full, cannot pick up ".to_owned();
    s.append(name.as_str());
    s.append(".");
    s
}

} // verus!
