use vstd::prelude::*;
use vstd::string::StringExecFns;

use crate::template::TemplateEntry;

verus! {

/// The categories of battle log text.
#[derive(Debug, PartialEq, Eq, Structural, Clone, Copy)]
pub enum BattleTextEntry {
    Id,
    Attack,
    Damage,
}

impl BattleTextEntry {
    /// Text naming a character.
    pub fn id(text: &str) -> (r: TemplateEntry<Self>)
        ensures
            r matches TemplateEntry::Typed(BattleTextEntry::Id, t) && t@ == text@,
    {
        TemplateEntry::Typed(BattleTextEntry::Id, String::from_str(text))
    }

    /// Text naming a card.
    pub fn attack(text: &str) -> (r: TemplateEntry<Self>)
        ensures
            r matches TemplateEntry::Typed(BattleTextEntry::Attack, t) && t@ == text@,
    {
        TemplateEntry::Typed(BattleTextEntry::Attack, String::from_str(text))
    }

    /// Text giving an amount.
    pub fn damage(text: &str) -> (r: TemplateEntry<Self>)
        ensures
            r matches TemplateEntry::Typed(BattleTextEntry::Damage, t) && t@ == text@,
    {
        TemplateEntry::Typed(BattleTextEntry::Damage, String::from_str(text))
    }
}

/// One entry of the battle log.
pub type BattleText = Vec<TemplateEntry<BattleTextEntry>>;

} // verus!
