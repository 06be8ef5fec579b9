pub mod action;
pub mod battle;
pub mod battle_file;
pub mod battle_history;
pub mod battle_menu;
pub mod board;
pub mod card;
pub mod character;
pub mod dumb_actor;
pub mod grid;
pub mod menu;
pub mod random_provider;
pub mod template;

pub use action::{Action, ActionError, ActionFailure, ActionResult};
pub use battle::{normalize_maybe_life_number_range, Battle, Round, RoundStep, Team, TeamId};
pub use battle_menu::{ActionsMenu, BattleMenu, BattleMenuItem, BattleMenuOutput, CardMenu, CardSelectionItem, PassMenuItem};
pub use battle_history::{BattleText, BattleTextEntry};
pub use board::{Board, BoardItem};
pub use card::{Card, CardAction, CardId, LifeNumber, Target, U64Range};
pub use character::{Attack, Character, CharacterAction, CharacterId, CharacterRace, HandSize, Health};
pub use dumb_actor::{total_average_damage, DumbActor};
pub use grid::{Grid, GridDimension, GridLocation};
pub use menu::{normalize_name, pick_by_name, Menu, MenuAction, MenuDirection, MenuItem};
pub use random_provider::{pick_linear, pick_n_unique_linear, DefaultRandomProvider, RandomProvider};
pub use template::{Template, TemplateEntry, TemplateRenderer};
