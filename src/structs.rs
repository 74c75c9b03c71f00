use vstd::prelude::*;

verus! {

/// The dungeon grid, indexed `map[x][y]`.
pub type TileMap = Vec<Vec<Tile>>;

/// A colour as its three channels; rendering reads it, the core only carries it.
#[derive(Clone, Copy, Debug, PartialEq, Eq, Structural)]
pub struct Color {
    pub r: u8,
    pub g: u8,
    pub b: u8,
}

impl Color {
    pub fn new(r: u8, g: u8, b: u8) -> (c: Color)
        ensures
            c.r == r && c.g == g && c.b == b,
    {
        Color { r, g, b }
    }
}

pub open spec fn rgb(r: u8, g: u8, b: u8) -> Color {
    Color { r, g, b }
}

pub fn white() -> (c: Color)
    ensures
        c == rgb(255, 255, 255),
{
    Color { r: 255, g: 255, b: 255 }
}

pub fn red() -> (c: Color)
    ensures
        c == rgb(255, 0, 0),
{
    Color { r: 255, g: 0, b: 0 }
}

pub fn orange() -> (c: Color)
    ensures
        c == rgb(255, 127, 0),
{
    Color { r: 255, g: 127, b: 0 }
}

pub fn green() -> (c: Color)
    ensures
        c == rgb(0, 255, 0),
{
    Color { r: 0, g: 255, b: 0 }
}

pub fn dark_red() -> (c: Color)
    ensures
        c == rgb(191, 0, 0),
{
    Color { r: 191, g: 0, b: 0 }
}

pub fn darker_blue() -> (c: Color)
    ensures
        c == rgb(0, 0, 127),
{
    Color { r: 0, g: 0, b: 127 }
}

pub fn desaturated_green() -> (c: Color)
    ensures
        c == rgb(63, 127, 63),
{
    Color { r: 63, g: 127, b: 63 }
}

pub fn darker_green() -> (c: Color)
    ensures
        c == rgb(0, 127, 0),
{
    Color { r: 0, g: 127, b: 0 }
}

pub fn violet() -> (c: Color)
    ensures
        c == rgb(127, 0, 255),
{
    Color { r: 127, g: 0, b: 255 }
}

pub fn light_yellow() -> (c: Color)
    ensures
        c == rgb(255, 255, 63),
{
    Color { r: 255, g: 255, b: 63 }
}

/// One cell of the map.
#[derive(Clone, Copy, Debug, PartialEq, Eq, Structural)]
pub struct Tile {
    pub blocked: bool,
    pub explored: bool,
    pub block_sight: bool,
}

impl Tile {
    pub fn empty() -> (t: Tile)
        ensures
            !t.blocked && !t.explored && !t.block_sight,
    {
        Tile { blocked: false, explored: false, block_sight: false }
    }

    pub fn wall() -> (t: Tile)
        ensures
            t.blocked && !t.explored && t.block_sight,
    {
        Tile { blocked: true, explored: false, block_sight: true }
    }
}

/// Half of `v`, truncated toward zero as integer division does.
pub open spec fn half_toward_zero(v: int) -> int {
    if v >= 0 {
        v / 2
    } else {
        -((-v) / 2)
    }
}

fn halve(v: i64) -> (r: i64)
    requires
        v > i64::MIN,
    ensures
        r == half_toward_zero(v as int),
{
    if v >= 0 {
        v / 2
    } else {
        -((-v) / 2)
    }
}

/// An axis-aligned rectangle with inclusive corners `(x1, y1)` and `(x2, y2)`.
#[derive(Clone, Copy, Debug, PartialEq, Eq, Structural)]
pub struct Rect {
    pub x1: i32,
    pub y1: i32,
    pub x2: i32,
    pub y2: i32,
}

impl Rect {
    pub open spec fn center_spec(self) -> (int, int) {
        (half_toward_zero(self.x1 + self.x2), half_toward_zero(self.y1 + self.y2))
    }

    /// Overlapping or touching on both axes; bounds are inclusive.
    pub open spec fn intersects_spec(self, other: Rect) -> bool {
        self.x1 <= other.x2 && self.x2 >= other.x1 && self.y1 <= other.y2 && self.y2 >= other.y1
    }

    pub fn new(x: i32, y: i32, w: i32, h: i32) -> (r: Rect)
        requires
            i32::MIN <= x + w <= i32::MAX,
            i32::MIN <= y + h <= i32::MAX,
        ensures
            r.x1 == x && r.y1 == y && r.x2 == x + w && r.y2 == y + h,
    {
        Rect { x1: x, y1: y, x2: x + w, y2: y + h }
    }

    /// The midpoint, each coordinate truncated toward zero.
    pub fn center(&self) -> (c: (i32, i32))
        ensures
            c.0 == self.center_spec().0,
            c.1 == self.center_spec().1,
    {
        let cx = halve(self.x1 as i64 + self.x2 as i64) as i32;
        let cy = halve(self.y1 as i64 + self.y2 as i64) as i32;
        (cx, cy)
    }

    pub fn intersects_with(&self, other: &Rect) -> (b: bool)
        ensures
            b == self.intersects_spec(*other),
    {
        (self.x1 <= other.x2) && (self.x2 >= other.x1) && (self.y1 <= other.y2) && (self.y2 >= other.y1)
    }
}

/// Combat capability of an object.
#[derive(Clone, Copy, Debug, PartialEq, Eq, Structural)]
pub struct Fighter {
    pub max_hp: i32,
    pub hp: i32,
    pub defense: i32,
    pub power: i32,
    pub on_death: DeathCallback,
}

/// Behaviour of a monster; a confused one remembers what it was before.
#[derive(Debug, PartialEq, Eq)]
pub enum Ai {
    Basic,
    Confused { previous_ai: Box<Ai>, num_turns: i32 },
}

/// How the player's input was resolved.
#[derive(Clone, Copy, Debug, PartialEq, Eq, Structural)]
pub enum PlayerAction {
    TookTurn,
    DidntTakeTurn,
    Exit,
}

/// Which effect using an item triggers.
#[derive(Clone, Copy, Debug, PartialEq, Eq, Structural)]
pub enum Item {
    Heal,
    Lightning,
    Confuse,
    Fireball,
}

/// Which death transition runs when a fighter's hit points run out.
#[derive(Clone, Copy, Debug, PartialEq, Eq, Structural)]
pub enum DeathCallback {
    Player,
    Monster,
}

/// Outcome of using an item.
#[derive(Clone, Copy, Debug, PartialEq, Eq, Structural)]
pub enum UseResult {
    UsedUp,
    Cancelled,
}

/// A game entity: the player, a monster or an item lying on the floor.
#[derive(Debug)]
pub struct Object {
    pub x: i32,
    pub y: i32,
    pub char: char,
    pub color: Color,
    pub name: String,
    pub blocks: bool,
    pub alive: bool,
    pub fighter: Option<Fighter>,
    pub ai: Option<Ai>,
    pub item: Option<Item>,
}

impl Object {
    pub fn new(x: i32, y: i32, char: char, name: &str, color: Color, blocks: bool) -> (o: Object)
        ensures
            o.x == x && o.y == y && o.char == char && o.color == color,
            o.name@ == name@,
            o.blocks == blocks,
            !o.alive,
            o.fighter is None && o.ai is None && o.item is None,
    {
        Object {
            x,
            y,
            char,
            color,
            name: name.to_owned(),
            blocks,
            alive: false,
            fighter: None,
            ai: None,
            item: None,
        }
    }

    pub fn pos(&self) -> (p: (i32, i32))
        ensures
            p == (self.x, self.y),
    {
        (self.x, self.y)
    }

    pub fn set_pos(&mut self, x: i32, y: i32)
        ensures
            *final(self) == (Object { x, y, ..*old(self) }),
    {
        self.x = x;
        self.y = y;
    }
}

/// The message log's contents: each entry's text and colour, oldest first.
pub open spec fn log_of(m: &Messages) -> Seq<(Seq<char>, Color)> {
    m.messages@.map_values(|e: (String, Color)| (e.0@, e.1))
}

/// Append-only log of messages for the player, in display order.
pub struct Messages {
    pub messages: Vec<(String, Color)>,
}

impl Messages {
    pub fn new() -> (m: Messages)
        ensures
            log_of(&m) == Seq::<(Seq<char>, Color)>::empty(),
    {
        let m = Messages { messages: Vec::new() };
        assert(log_of(&m) =~= Seq::<(Seq<char>, Color)>::empty());
        m
    }

    /// Appends one message at the end.
    pub fn add(&mut self, message: String, color: Color)
        ensures
            log_of(final(self)) == log_of(old(self)).push((message@, color)),
    {
        self.messages.push((message, color));
        assert(log_of(self) =~= log_of(old(self)).push((message@, color)));
    }

    /// All messages, oldest first.
    pub fn iter(&self) -> (r: &Vec<(String, Color)>)
        ensures
            r@ == self.messages@,
    {
        &self.messages
    }
}

/// The state of one game besides its entities.
pub struct Game {
    pub map: TileMap,
    pub messages: Messages,
    pub inventory: Vec<Object>,
}

} // verus!
