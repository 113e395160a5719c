//! Messages of the multiworld server protocol, as plain values.

use vstd::prelude::*;

verus! {

/// How a server command may be used.
pub enum Permission {
    Disabled,
    Enabled,
    Goal,
    Auto,
    AutoEnabled,
}

impl Permission {
    /// The number that stands for the permission on the wire.
    pub fn wire_value(&self) -> (res: u16)
        ensures
            res == match *self {
                Permission::Disabled => 0u16,
                Permission::Enabled => 1u16,
                Permission::Goal => 2u16,
                Permission::Auto => 6u16,
                Permission::AutoEnabled => 7u16,
            },
    {
        match self {
            Permission::Disabled => 0,
            Permission::Enabled => 1,
            Permission::Goal => 2,
            Permission::Auto => 6,
            Permission::AutoEnabled => 7,
        }
    }

    /// The permission a wire number stands for.
    pub fn from_wire(v: u16) -> (res: Option<Permission>)
        ensures
            res is Some <==> (v == 0 || v == 1 || v == 2 || v == 6 || v == 7),
            res matches Some(p) ==> p.wire_value_spec() == v,
    {
        match v {
            0 => Some(Permission::Disabled),
            1 => Some(Permission::Enabled),
            2 => Some(Permission::Goal),
            6 => Some(Permission::Auto),
            7 => Some(Permission::AutoEnabled),
            _ => None,
        }
    }

    pub open spec fn wire_value_spec(self) -> u16 {
        match self {
            Permission::Disabled => 0u16,
            Permission::Enabled => 1u16,
            Permission::Goal => 2u16,
            Permission::Auto => 6u16,
            Permission::AutoEnabled => 7u16,
        }
    }
}

/// The version of the protocol.
pub struct NetworkVersion {
    pub major: i32,
    pub minor: i32,
    pub build: i32,
    pub class: String,
}

/// A player of the multiworld.
pub struct NetworkPlayer {
    pub team: i32,
    pub slot: i32,
    pub alias: String,
    pub name: String,
}

/// An item placed at a location.
pub struct NetworkItem {
    pub item: i64,
    pub location: i64,
    pub player: i64,
    pub flags: i64,
}

/// What a slot is.
pub enum SlotType {
    Spectator,
    Player,
    Group,
}

impl SlotType {
    /// The number that stands for the slot type on the wire.
    pub fn wire_value(&self) -> (res: u16)
        ensures
            res == match *self {
                SlotType::Spectator => 0u16,
                SlotType::Player => 1u16,
                SlotType::Group => 2u16,
            },
    {
        match self {
            SlotType::Spectator => 0,
            SlotType::Player => 1,
            SlotType::Group => 2,
        }
    }

    /// The slot type a wire number stands for.
    pub fn from_wire(v: u16) -> (res: Option<SlotType>)
        ensures
            res is Some <==> v <= 2,
            res matches Some(t) ==> (v == 0 ==> t is Spectator) && (v == 1 ==> t is Player) && (v == 2 ==> t is Group),
    {
        match v {
            0 => Some(SlotType::Spectator),
            1 => Some(SlotType::Player),
            2 => Some(SlotType::Group),
            _ => None,
        }
    }
}

/// A slot of the multiworld.
pub struct NetworkSlot {
    pub name: String,
    pub game: String,
    pub slot_type: SlotType,
    pub group_members: Vec<i32>,
}

/// The server's answer to a successful connection.
pub struct Connected {
    pub slot: i32,
    pub players: Vec<NetworkPlayer>,
    pub missing_locations: Vec<i64>,
    pub checked_locations: Vec<i64>,
    pub slot_data: RawSlotData,
    pub slot_info: Vec<(String, NetworkSlot)>,
}

/// The options of this player's game.
#[derive(Clone, Copy)]
pub struct SlotData {
    /// How many campaigns must be completed to win.
    pub required_campaigns: usize,
}

/// The options as the server sends them.
#[derive(Clone, Copy)]
pub struct RawSlotData {
    pub g: usize,
}

impl SlotData {
    /// Reads the options; every raw value is accepted.
    pub fn try_from(value: RawSlotData) -> (res: Result<SlotData, ()>)
        ensures
            res == Ok::<SlotData, ()>(SlotData { required_campaigns: value.g }),
    {
        Ok(SlotData { required_campaigns: value.g })
    }
}

/// A message to print.
pub struct PrintJSON {
    pub data: Vec<JSONMessagePart>,
    pub msg_type: Option<String>,
    pub receiving: Option<i32>,
    pub item: Option<NetworkItem>,
    pub found: Option<bool>,
    pub countdown: Option<i32>,
}

/// A part of a message to print.
pub struct JSONMessagePart {
    pub part_type: Option<String>,
    pub text: Option<String>,
    pub color: Option<String>,
    pub flags: Option<i32>,
    pub player: Option<i32>,
}

/// The names and ids of a game's items and locations.
pub struct GameData {
    pub item_name_to_id: Vec<(String, i64)>,
    pub location_name_to_id: Vec<(String, i64)>,
}

} // verus!
