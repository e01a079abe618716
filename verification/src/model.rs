//! The data of a small game: events, rewards, statistics and effects.

use vstd::prelude::*;

verus! {

/// Something that happened in a game.
#[derive(PartialEq, Debug)]
pub enum GameEvent {
    PlayerJoined { player_id: String },
    PlayerLeft { player_id: String },
    ChatMessage { sender: String, message: String },
    /// The target is absent where the item acts on an area.
    ItemUsed { item_id: String, target: Option<String> },
    BattleResult { winner: String, loser: String, rewards: Vec<Reward> },
}

/// A number of items of one kind, won in a battle.
#[derive(PartialEq, Debug)]
pub struct Reward {
    pub item_id: String,
    pub quantity: u32,
}

/// The statistics of a player.
#[derive(PartialEq, Debug)]
pub struct Stats {
    pub health: u32,
    pub mana: u32,
    pub attack: u32,
    pub defense: u32,
    pub magic_attack: u32,
    pub magic_defense: u32,
}

/// What an item does when it is used.
#[derive(PartialEq, Debug)]
pub enum Effect {
    Damage(u32),
    Heal(u32),
    Buff(StatBuff),
    Debuff(StatBuff),
}

/// A change of one statistic, up or down.
#[derive(PartialEq, Debug)]
pub struct StatBuff {
    pub stat: String,
    pub amount: i32,
}

} // verus!
