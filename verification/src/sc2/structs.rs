use vstd::prelude::*;

use crate::bytes::le_value;
use crate::numbers::{decimal_chars, int_decimal_chars, u64_decimal, Integer};
use crate::table::keys_distinct;

verus! {

/// A value of the serialized data of the replay's files.
#[derive(Debug)]
pub enum DataType {
    Array(Vec<Box<DataType>>),
    VInt(Integer),
    Blob(Vec<u8>),
    Optional(Option<Box<DataType>>),
    /// A table from integers to values; the parsers build it with no key twice.
    HashMap(Vec<(Integer, Box<DataType>)>),
    UInt8(u8),
    UInt32(u32),
    UInt64(u64),
    Str(String),
}

/// What a `DataType` holds.
pub ghost enum Value {
    Array(Seq<Value>),
    VInt(int),
    Blob(Seq<u8>),
    Optional(Option<Box<Value>>),
    HashMap(Seq<(int, Value)>),
    UInt8(u8),
    UInt32(u32),
    UInt64(u64),
    Str(Seq<char>),
}

pub open spec fn data_view(d: DataType) -> Value
    decreases d, 0nat,
{
    match d {
        DataType::Array(v) => Value::Array(items_view(v@)),
        DataType::VInt(i) => Value::VInt(i@),
        DataType::Blob(b) => Value::Blob(b@),
        DataType::Optional(o) => match o {
            Some(b) => Value::Optional(Some(Box::new(data_view(*b)))),
            None => Value::Optional(None),
        },
        DataType::HashMap(v) => Value::HashMap(pairs_view(v@)),
        DataType::UInt8(i) => Value::UInt8(i),
        DataType::UInt32(i) => Value::UInt32(i),
        DataType::UInt64(i) => Value::UInt64(i),
        DataType::Str(s) => Value::Str(s@),
    }
}

pub open spec fn items_view(s: Seq<Box<DataType>>) -> Seq<Value>
    decreases s, 1nat,
{
    if s.len() == 0 {
        seq![]
    } else {
        items_view(s.drop_last()).push(data_view(*s.last()))
    }
}

pub open spec fn pairs_view(s: Seq<(Integer, Box<DataType>)>) -> Seq<(int, Value)>
    decreases s, 1nat,
{
    if s.len() == 0 {
        seq![]
    } else {
        pairs_view(s.drop_last()).push((s.last().0@, data_view(*s.last().1)))
    }
}

impl View for DataType {
    type V = Value;

    open spec fn view(&self) -> Value {
        data_view(*self)
    }
}

/// The view of an array holds the view of each item, in order.
pub proof fn lemma_items_view(s: Seq<Box<DataType>>)
    ensures
        items_view(s).len() == s.len(),
        forall|i: int| 0 <= i < s.len() ==> #[trigger] items_view(s)[i] == data_view(*s[i]),
    decreases s.len(),
{
    if s.len() > 0 {
        lemma_items_view(s.drop_last());
    }
}

/// The view of a table holds the key and view of each pair, in order.
pub proof fn lemma_pairs_view(s: Seq<(Integer, Box<DataType>)>)
    ensures
        pairs_view(s).len() == s.len(),
        forall|i: int|
            0 <= i < s.len() ==> #[trigger] pairs_view(s)[i] == (s[i].0@, data_view(*s[i].1)),
    decreases s.len(),
{
    if s.len() > 0 {
        lemma_pairs_view(s.drop_last());
    }
}

/// A player's Battle.net identity.
#[derive(Debug)]
pub struct BNet {
    pub region: Integer,
    pub program_id: u32,
    pub subregion: Integer,
    pub uid: Integer,
}

/// What a `BNet` holds.
pub ghost struct BNetView {
    pub region: int,
    pub program_id: u32,
    pub subregion: int,
    pub uid: int,
}

impl View for BNet {
    type V = BNetView;

    open spec fn view(&self) -> BNetView {
        BNetView { region: self.region@, program_id: self.program_id, subregion: self.subregion@, uid: self.uid@ }
    }
}

/// A player's colour.
#[derive(Debug)]
pub struct Color {
    pub a: Integer,
    pub r: Integer,
    pub g: Integer,
    pub b: Integer,
}

/// What a `Color` holds.
pub ghost struct ColorView {
    pub a: int,
    pub r: int,
    pub g: int,
    pub b: int,
}

impl View for Color {
    type V = ColorView;

    open spec fn view(&self) -> ColorView {
        ColorView { a: self.a@, r: self.r@, g: self.g@, b: self.b@ }
    }
}

/// A player of the game.
#[derive(Debug)]
pub struct Player {
    pub name: String,
    pub bnet: BNet,
    pub race: String,
    pub color: Color,
    pub control: Integer,
    pub team: Integer,
    pub handicap: Integer,
    pub observe: Integer,
    pub result: Integer,
}

/// What a `Player` holds.
pub ghost struct PlayerView {
    pub name: Seq<char>,
    pub bnet: BNetView,
    pub race: Seq<char>,
    pub color: ColorView,
    pub control: int,
    pub team: int,
    pub handicap: int,
    pub observe: int,
    pub result: int,
}

impl View for Player {
    type V = PlayerView;

    open spec fn view(&self) -> PlayerView {
        PlayerView {
            name: self.name@,
            bnet: self.bnet@,
            race: self.race@,
            color: self.color@,
            control: self.control@,
            team: self.team@,
            handicap: self.handicap@,
            observe: self.observe@,
            result: self.result@,
        }
    }
}

/// The details of a game: its players and its map.
#[derive(Debug)]
pub struct Details {
    pub players: Vec<Player>,
    pub map_name: String,
    pub difficulty: String,
    pub thumbnail: String,
    pub blizz_map: u8,
    pub file_time: Integer,
    pub utc_adjustment: Integer,
    pub description: String,
    pub image_file_path: String,
    pub map_file_name: String,
    pub cache_handle: Vec<String>,
    pub mini_save: u8,
    pub default_difficulty: Integer,
    pub game_speed: Integer,
}

/// What a `Details` holds.
pub ghost struct DetailsView {
    pub players: Seq<PlayerView>,
    pub map_name: Seq<char>,
    pub difficulty: Seq<char>,
    pub thumbnail: Seq<char>,
    pub blizz_map: u8,
    pub file_time: int,
    pub utc_adjustment: int,
    pub description: Seq<char>,
    pub image_file_path: Seq<char>,
    pub map_file_name: Seq<char>,
    pub cache_handle: Seq<Seq<char>>,
    pub mini_save: u8,
    pub default_difficulty: int,
    pub game_speed: int,
}

impl View for Details {
    type V = DetailsView;

    open spec fn view(&self) -> DetailsView {
        DetailsView {
            players: self.players@.map_values(|p: Player| p@),
            map_name: self.map_name@,
            difficulty: self.difficulty@,
            thumbnail: self.thumbnail@,
            blizz_map: self.blizz_map,
            file_time: self.file_time@,
            utc_adjustment: self.utc_adjustment@,
            description: self.description@,
            image_file_path: self.image_file_path@,
            map_file_name: self.map_file_name@,
            cache_handle: self.cache_handle@.map_values(|s: String| s@),
            mini_save: self.mini_save,
            default_difficulty: self.default_difficulty@,
            game_speed: self.game_speed@,
        }
    }
}

/// The kinds of game events, each with its number in the replay's event stream.
#[derive(Debug, Clone, Copy, PartialEq, Eq, Structural)]
pub enum Events {
    UnknownEvent,
    FinishedLoadingSyncEvent,
    BankFileEvent,
    BankSectionEvent,
    BankKeyEvent,
    BankValueEvent,
    BankSignatureEvent,
    UserOptionsEvent,
    SaveGameEvent,
    SaveGameDoneEvent,
    PlayerLeaveEvent,
    GameCheatEvent,
    CommandEvent,
    SelectionDeltaEvent,
    ControlGroupUpdateEvent,
    SelectionSyncCheckEvent,
    ResourceTradeEvent,
    TriggerChatMessageEvent,
    AiCommunicateEvent,
    SetAbsoluteGameSpeedEvent,
    AddAbsoluteGameSpeedEvent,
    BroadcastCheatEvent,
    AllianceEvent,
    UnitClickEvent,
    UnitHighlightEvent,
    TriggerReplySelectedEvent,
    TriggerSkippedEvent,
    TriggerSoundLengthQueryEvent,
    TriggerSoundOffsetEvent,
    TriggerTransmissionOffsetEvent,
    TriggerTransmissionCompleteEvent,
    CameraUpdateEvent,
    TriggerAbortMissionEvent,
    TriggerPurchaseMadeEvent,
    TriggerPurchaseExitEvent,
    TriggerPlanetMissionLaunchedEvent,
    TriggerPlanetPanelCanceledEvent,
    TriggerDialogControlEvent,
    TriggerSoundLengthSyncEvent,
    TriggerConversationSkippedEvent,
    TriggerMouseClickedEvent,
    TriggerPlanetPanelReplayEvent,
    TriggerSoundtrackDoneEvent,
    TriggerPlanetMissionSelectedEvent,
    TriggerKeyPressedEvent,
    TriggerMovieFunctionEvent,
    TriggerPlanetPanelBirthCompleteEvent,
    TriggerPlanetPanelDeathCompleteEvent,
    ResourceRequestEvent,
    ResourceRequestFulfillEvent,
    ResourceRequestCancelEvent,
    TriggerResearchPanelExitEvent,
    TriggerResearchPanelPurchaseEvent,
    TriggerResearchPanelSelectionChangedEvent,
    LagMessageEvent,
    TriggerMercenaryPanelExitEvent,
    TriggerMercenaryPanelPurchaseEvent,
    TriggerMercenaryPanelSelectionChangedEvent,
    TriggerVictoryPanelExitEvent,
    TriggerBattleReportPanelExitEvent,
    TriggerBattleReportPanelPlayMissionEvent,
    TriggerBattleReportPanelPlaySceneEvent,
    TriggerBattleReportPanelSelectionChangedEvent,
    TriggerVictoryPanelPlayMissionAgainEvent,
    TriggerMovieStartedEvent,
    TriggerMovieFinishedEvent,
    DecrementGameTimeRemainingEvent,
    TriggerPortraitLoadedEvent,
    TriggerCustomDialogDismissedEvent,
    TriggerGameMenuItemSelectedEvent,
    TriggerCameraMoveEvent,
    TriggerPurchasePanelSelectedPurchaseItemChangedEvent,
    TriggerPurchasePanelSelectedPurchaseCategoryChangedEvent,
    TriggerButtonPressedEvent,
    TriggerGameCreditsFinishedEvent,
}

/// The number of the event kind `e`.
pub open spec fn event_code(e: Events) -> u64 {
    match e {
        Events::UnknownEvent => 0,
        Events::FinishedLoadingSyncEvent => 5,
        Events::BankFileEvent => 7,
        Events::BankSectionEvent => 8,
        Events::BankKeyEvent => 9,
        Events::BankValueEvent => 10,
        Events::BankSignatureEvent => 11,
        Events::UserOptionsEvent => 12,
        Events::SaveGameEvent => 22,
        Events::SaveGameDoneEvent => 23,
        Events::PlayerLeaveEvent => 25,
        Events::GameCheatEvent => 26,
        Events::CommandEvent => 27,
        Events::SelectionDeltaEvent => 28,
        Events::ControlGroupUpdateEvent => 29,
        Events::SelectionSyncCheckEvent => 30,
        Events::ResourceTradeEvent => 31,
        Events::TriggerChatMessageEvent => 32,
        Events::AiCommunicateEvent => 33,
        Events::SetAbsoluteGameSpeedEvent => 34,
        Events::AddAbsoluteGameSpeedEvent => 35,
        Events::BroadcastCheatEvent => 37,
        Events::AllianceEvent => 38,
        Events::UnitClickEvent => 39,
        Events::UnitHighlightEvent => 40,
        Events::TriggerReplySelectedEvent => 41,
        Events::TriggerSkippedEvent => 44,
        Events::TriggerSoundLengthQueryEvent => 45,
        Events::TriggerSoundOffsetEvent => 46,
        Events::TriggerTransmissionOffsetEvent => 47,
        Events::TriggerTransmissionCompleteEvent => 48,
        Events::CameraUpdateEvent => 49,
        Events::TriggerAbortMissionEvent => 50,
        Events::TriggerPurchaseMadeEvent => 51,
        Events::TriggerPurchaseExitEvent => 52,
        Events::TriggerPlanetMissionLaunchedEvent => 53,
        Events::TriggerPlanetPanelCanceledEvent => 54,
        Events::TriggerDialogControlEvent => 55,
        Events::TriggerSoundLengthSyncEvent => 56,
        Events::TriggerConversationSkippedEvent => 57,
        Events::TriggerMouseClickedEvent => 58,
        Events::TriggerPlanetPanelReplayEvent => 63,
        Events::TriggerSoundtrackDoneEvent => 64,
        Events::TriggerPlanetMissionSelectedEvent => 65,
        Events::TriggerKeyPressedEvent => 66,
        Events::TriggerMovieFunctionEvent => 67,
        Events::TriggerPlanetPanelBirthCompleteEvent => 68,
        Events::TriggerPlanetPanelDeathCompleteEvent => 69,
        Events::ResourceRequestEvent => 70,
        Events::ResourceRequestFulfillEvent => 71,
        Events::ResourceRequestCancelEvent => 72,
        Events::TriggerResearchPanelExitEvent => 73,
        Events::TriggerResearchPanelPurchaseEvent => 74,
        Events::TriggerResearchPanelSelectionChangedEvent => 75,
        Events::LagMessageEvent => 76,
        Events::TriggerMercenaryPanelExitEvent => 77,
        Events::TriggerMercenaryPanelPurchaseEvent => 78,
        Events::TriggerMercenaryPanelSelectionChangedEvent => 79,
        Events::TriggerVictoryPanelExitEvent => 80,
        Events::TriggerBattleReportPanelExitEvent => 81,
        Events::TriggerBattleReportPanelPlayMissionEvent => 82,
        Events::TriggerBattleReportPanelPlaySceneEvent => 83,
        Events::TriggerBattleReportPanelSelectionChangedEvent => 84,
        Events::TriggerVictoryPanelPlayMissionAgainEvent => 85,
        Events::TriggerMovieStartedEvent => 86,
        Events::TriggerMovieFinishedEvent => 87,
        Events::DecrementGameTimeRemainingEvent => 88,
        Events::TriggerPortraitLoadedEvent => 89,
        Events::TriggerCustomDialogDismissedEvent => 90,
        Events::TriggerGameMenuItemSelectedEvent => 91,
        Events::TriggerCameraMoveEvent => 92,
        Events::TriggerPurchasePanelSelectedPurchaseItemChangedEvent => 93,
        Events::TriggerPurchasePanelSelectedPurchaseCategoryChangedEvent => 94,
        Events::TriggerButtonPressedEvent => 95,
        Events::TriggerGameCreditsFinishedEvent => 96,
    }
}

impl Events {
    /// The number of this event kind.
    pub fn to_u64(&self) -> (n: u64)
        ensures
            n == event_code(*self),
    {
        match self {
            Events::UnknownEvent => 0,
            Events::FinishedLoadingSyncEvent => 5,
            Events::BankFileEvent => 7,
            Events::BankSectionEvent => 8,
            Events::BankKeyEvent => 9,
            Events::BankValueEvent => 10,
            Events::BankSignatureEvent => 11,
            Events::UserOptionsEvent => 12,
            Events::SaveGameEvent => 22,
            Events::SaveGameDoneEvent => 23,
            Events::PlayerLeaveEvent => 25,
            Events::GameCheatEvent => 26,
            Events::CommandEvent => 27,
            Events::SelectionDeltaEvent => 28,
            Events::ControlGroupUpdateEvent => 29,
            Events::SelectionSyncCheckEvent => 30,
            Events::ResourceTradeEvent => 31,
            Events::TriggerChatMessageEvent => 32,
            Events::AiCommunicateEvent => 33,
            Events::SetAbsoluteGameSpeedEvent => 34,
            Events::AddAbsoluteGameSpeedEvent => 35,
            Events::BroadcastCheatEvent => 37,
            Events::AllianceEvent => 38,
            Events::UnitClickEvent => 39,
            Events::UnitHighlightEvent => 40,
            Events::TriggerReplySelectedEvent => 41,
            Events::TriggerSkippedEvent => 44,
            Events::TriggerSoundLengthQueryEvent => 45,
            Events::TriggerSoundOffsetEvent => 46,
            Events::TriggerTransmissionOffsetEvent => 47,
            Events::TriggerTransmissionCompleteEvent => 48,
            Events::CameraUpdateEvent => 49,
            Events::TriggerAbortMissionEvent => 50,
            Events::TriggerPurchaseMadeEvent => 51,
            Events::TriggerPurchaseExitEvent => 52,
            Events::TriggerPlanetMissionLaunchedEvent => 53,
            Events::TriggerPlanetPanelCanceledEvent => 54,
            Events::TriggerDialogControlEvent => 55,
            Events::TriggerSoundLengthSyncEvent => 56,
            Events::TriggerConversationSkippedEvent => 57,
            Events::TriggerMouseClickedEvent => 58,
            Events::TriggerPlanetPanelReplayEvent => 63,
            Events::TriggerSoundtrackDoneEvent => 64,
            Events::TriggerPlanetMissionSelectedEvent => 65,
            Events::TriggerKeyPressedEvent => 66,
            Events::TriggerMovieFunctionEvent => 67,
            Events::TriggerPlanetPanelBirthCompleteEvent => 68,
            Events::TriggerPlanetPanelDeathCompleteEvent => 69,
            Events::ResourceRequestEvent => 70,
            Events::ResourceRequestFulfillEvent => 71,
            Events::ResourceRequestCancelEvent => 72,
            Events::TriggerResearchPanelExitEvent => 73,
            Events::TriggerResearchPanelPurchaseEvent => 74,
            Events::TriggerResearchPanelSelectionChangedEvent => 75,
            Events::LagMessageEvent => 76,
            Events::TriggerMercenaryPanelExitEvent => 77,
            Events::TriggerMercenaryPanelPurchaseEvent => 78,
            Events::TriggerMercenaryPanelSelectionChangedEvent => 79,
            Events::TriggerVictoryPanelExitEvent => 80,
            Events::TriggerBattleReportPanelExitEvent => 81,
            Events::TriggerBattleReportPanelPlayMissionEvent => 82,
            Events::TriggerBattleReportPanelPlaySceneEvent => 83,
            Events::TriggerBattleReportPanelSelectionChangedEvent => 84,
            Events::TriggerVictoryPanelPlayMissionAgainEvent => 85,
            Events::TriggerMovieStartedEvent => 86,
            Events::TriggerMovieFinishedEvent => 87,
            Events::DecrementGameTimeRemainingEvent => 88,
            Events::TriggerPortraitLoadedEvent => 89,
            Events::TriggerCustomDialogDismissedEvent => 90,
            Events::TriggerGameMenuItemSelectedEvent => 91,
            Events::TriggerCameraMoveEvent => 92,
            Events::TriggerPurchasePanelSelectedPurchaseItemChangedEvent => 93,
            Events::TriggerPurchasePanelSelectedPurchaseCategoryChangedEvent => 94,
            Events::TriggerButtonPressedEvent => 95,
            Events::TriggerGameCreditsFinishedEvent => 96,
        }
    }

    /// The event kind with number `n`, if there is one.
    pub fn from_u64(n: u64) -> (e: Option<Events>)
        ensures
            match e {
                Some(k) => event_code(k) == n,
                None => forall|k: Events| event_code(k) != n,
            },
    {
        match n {
            0 => Some(Events::UnknownEvent),
            5 => Some(Events::FinishedLoadingSyncEvent),
            7 => Some(Events::BankFileEvent),
            8 => Some(Events::BankSectionEvent),
            9 => Some(Events::BankKeyEvent),
            10 => Some(Events::BankValueEvent),
            11 => Some(Events::BankSignatureEvent),
            12 => Some(Events::UserOptionsEvent),
            22 => Some(Events::SaveGameEvent),
            23 => Some(Events::SaveGameDoneEvent),
            25 => Some(Events::PlayerLeaveEvent),
            26 => Some(Events::GameCheatEvent),
            27 => Some(Events::CommandEvent),
            28 => Some(Events::SelectionDeltaEvent),
            29 => Some(Events::ControlGroupUpdateEvent),
            30 => Some(Events::SelectionSyncCheckEvent),
            31 => Some(Events::ResourceTradeEvent),
            32 => Some(Events::TriggerChatMessageEvent),
            33 => Some(Events::AiCommunicateEvent),
            34 => Some(Events::SetAbsoluteGameSpeedEvent),
            35 => Some(Events::AddAbsoluteGameSpeedEvent),
            37 => Some(Events::BroadcastCheatEvent),
            38 => Some(Events::AllianceEvent),
            39 => Some(Events::UnitClickEvent),
            40 => Some(Events::UnitHighlightEvent),
            41 => Some(Events::TriggerReplySelectedEvent),
            44 => Some(Events::TriggerSkippedEvent),
            45 => Some(Events::TriggerSoundLengthQueryEvent),
            46 => Some(Events::TriggerSoundOffsetEvent),
            47 => Some(Events::TriggerTransmissionOffsetEvent),
            48 => Some(Events::TriggerTransmissionCompleteEvent),
            49 => Some(Events::CameraUpdateEvent),
            50 => Some(Events::TriggerAbortMissionEvent),
            51 => Some(Events::TriggerPurchaseMadeEvent),
            52 => Some(Events::TriggerPurchaseExitEvent),
            53 => Some(Events::TriggerPlanetMissionLaunchedEvent),
            54 => Some(Events::TriggerPlanetPanelCanceledEvent),
            55 => Some(Events::TriggerDialogControlEvent),
            56 => Some(Events::TriggerSoundLengthSyncEvent),
            57 => Some(Events::TriggerConversationSkippedEvent),
            58 => Some(Events::TriggerMouseClickedEvent),
            63 => Some(Events::TriggerPlanetPanelReplayEvent),
            64 => Some(Events::TriggerSoundtrackDoneEvent),
            65 => Some(Events::TriggerPlanetMissionSelectedEvent),
            66 => Some(Events::TriggerKeyPressedEvent),
            67 => Some(Events::TriggerMovieFunctionEvent),
            68 => Some(Events::TriggerPlanetPanelBirthCompleteEvent),
            69 => Some(Events::TriggerPlanetPanelDeathCompleteEvent),
            70 => Some(Events::ResourceRequestEvent),
            71 => Some(Events::ResourceRequestFulfillEvent),
            72 => Some(Events::ResourceRequestCancelEvent),
            73 => Some(Events::TriggerResearchPanelExitEvent),
            74 => Some(Events::TriggerResearchPanelPurchaseEvent),
            75 => Some(Events::TriggerResearchPanelSelectionChangedEvent),
            76 => Some(Events::LagMessageEvent),
            77 => Some(Events::TriggerMercenaryPanelExitEvent),
            78 => Some(Events::TriggerMercenaryPanelPurchaseEvent),
            79 => Some(Events::TriggerMercenaryPanelSelectionChangedEvent),
            80 => Some(Events::TriggerVictoryPanelExitEvent),
            81 => Some(Events::TriggerBattleReportPanelExitEvent),
            82 => Some(Events::TriggerBattleReportPanelPlayMissionEvent),
            83 => Some(Events::TriggerBattleReportPanelPlaySceneEvent),
            84 => Some(Events::TriggerBattleReportPanelSelectionChangedEvent),
            85 => Some(Events::TriggerVictoryPanelPlayMissionAgainEvent),
            86 => Some(Events::TriggerMovieStartedEvent),
            87 => Some(Events::TriggerMovieFinishedEvent),
            88 => Some(Events::DecrementGameTimeRemainingEvent),
            89 => Some(Events::TriggerPortraitLoadedEvent),
            90 => Some(Events::TriggerCustomDialogDismissedEvent),
            91 => Some(Events::TriggerGameMenuItemSelectedEvent),
            92 => Some(Events::TriggerCameraMoveEvent),
            93 => Some(Events::TriggerPurchasePanelSelectedPurchaseItemChangedEvent),
            94 => Some(Events::TriggerPurchasePanelSelectedPurchaseCategoryChangedEvent),
            95 => Some(Events::TriggerButtonPressedEvent),
            96 => Some(Events::TriggerGameCreditsFinishedEvent),
            _ => None,
        }
    }
}

/// Each event kind is found again from its number.
pub proof fn lemma_event_code_injective(a: Events, b: Events)
    requires
        event_code(a) == event_code(b),
    ensures
        a == b,
{
}

/// What a player did in an event.
#[derive(Debug)]
pub struct PlayerEvent {}

/// A game event.
#[derive(Debug)]
pub struct Event {
    pub player: Option<PlayerEvent>,
    pub frame: u64,
    pub second: u64,
    pub is_local: bool,
    pub pid: u64,
    pub name: String,
    pub event_id: u64,
}

impl Event {
    /// The event of type `event_id` named `name`, of player `pid`, at frame `frame`: its
    /// second is the frame divided by 16, it is local unless its player is 16, and it
    /// carries no player event.
    pub fn new(event_id: u64, name: String, pid: u64, frame: u64) -> (e: Event)
        ensures
            e.event_id == event_id,
            e.name@ == name@,
            e.pid == pid,
            e.frame == frame,
            e.second == frame / 16,
            e.is_local == (pid != 16),
            e.player is None,
    {
        assert(frame >> 4 == frame / 16) by (bit_vector);
        Event { event_id, player: None, pid, frame, second: frame >> 4, is_local: pid != 16, name }
    }
}

/// No table in `v`, at any depth, has a key twice.
pub open spec fn tables_distinct(v: Value) -> bool
    decreases v,
{
    match v {
        Value::Array(vs) => forall|i: int| 0 <= i < vs.len() ==> tables_distinct(#[trigger] vs[i]),
        Value::Optional(Some(b)) => tables_distinct(*b),
        Value::HashMap(m) => keys_distinct(m) && forall|i: int|
            0 <= i < m.len() ==> tables_distinct(#[trigger] m[i].1),
        _ => true,
    }
}

/// How deep `v` nests: zero for a value without parts.
pub open spec fn height(v: Value) -> nat
    decreases v, 0nat,
{
    match v {
        Value::Array(vs) => 1 + items_height(vs),
        Value::Optional(Some(b)) => 1 + height(*b),
        Value::HashMap(ps) => 1 + pairs_height(ps),
        _ => 0,
    }
}

/// The greatest height of the values of `vs`.
pub open spec fn items_height(vs: Seq<Value>) -> nat
    decreases vs, 1nat,
{
    if vs.len() == 0 {
        0
    } else {
        let h = height(vs.last());
        let r = items_height(vs.drop_last());
        if h > r { h } else { r }
    }
}

/// The greatest height of the values of the pairs `ps`.
pub open spec fn pairs_height(ps: Seq<(int, Value)>) -> nat
    decreases ps, 1nat,
{
    if ps.len() == 0 {
        0
    } else {
        let h = height(ps.last().1);
        let r = pairs_height(ps.drop_last());
        if h > r { h } else { r }
    }
}

/// Two spaces for each of `n` levels.
pub open spec fn indent(n: nat) -> Seq<char>
    decreases n,
{
    if n == 0 {
        seq![]
    } else {
        indent((n - 1) as nat) + "  "@
    }
}

/// The text of `v` at nesting level `level`.
pub open spec fn pretty(v: Value, level: nat) -> Seq<char>
    decreases v, 0nat,
{
    match v {
        Value::UInt8(i) => decimal_chars(i as nat) + "_u8"@,
        Value::UInt32(i) => decimal_chars(i as nat) + "_u32"@,
        Value::UInt64(i) => decimal_chars(i as nat) + "_u64"@,
        Value::Str(t) => "\""@ + t + "\""@,
        Value::Blob(b) => decimal_chars(le_value(b)) + "_bytes"@,
        Value::VInt(x) => int_decimal_chars(x) + "_vint"@,
        Value::Optional(Some(b)) => "Some("@ + pretty(*b, level) + ")"@,
        Value::Optional(None) => "None"@,
        Value::Array(vs) => "[\n"@ + pretty_items(vs, level) + indent(level) + "]"@,
        Value::HashMap(ps) => "{\n"@ + pretty_pairs(ps, level) + indent(
            if level > 0 { (level - 1) as nat } else { level },
        ) + "}"@,
    }
}

/// The lines of the items of an array at level `level`.
pub open spec fn pretty_items(vs: Seq<Value>, level: nat) -> Seq<char>
    decreases vs, 1nat,
{
    if vs.len() == 0 {
        seq![]
    } else {
        pretty_items(vs.drop_last(), level) + indent(level) + pretty(vs.last(), level + 1) + ",\n"@
    }
}

/// The lines of the pairs of a table at level `level`.
pub open spec fn pretty_pairs(ps: Seq<(int, Value)>, level: nat) -> Seq<char>
    decreases ps, 1nat,
{
    if ps.len() == 0 {
        seq![]
    } else {
        pretty_pairs(ps.drop_last(), level) + indent(level + 1) + int_decimal_chars(ps.last().0) + ": "@
            + pretty(ps.last().1, level + 2) + ",\n"@
    }
}

proof fn lemma_items_height(vs: Seq<Value>, i: int)
    requires
        0 <= i < vs.len(),
    ensures
        height(vs[i]) <= items_height(vs),
    decreases vs.len(),
{
    if i < vs.len() - 1 {
        lemma_items_height(vs.drop_last(), i);
    }
}

proof fn lemma_pairs_height(ps: Seq<(int, Value)>, i: int)
    requires
        0 <= i < ps.len(),
    ensures
        height(ps[i].1) <= pairs_height(ps),
    decreases ps.len(),
{
    if i < ps.len() - 1 {
        lemma_pairs_height(ps.drop_last(), i);
    }
}

proof fn lemma_items_height_bound(vs: Seq<Value>, l: nat)
    requires
        forall|i: int| 0 <= i < vs.len() ==> #[trigger] height(vs[i]) <= l,
    ensures
        items_height(vs) <= l,
    decreases vs.len(),
{
    if vs.len() > 0 {
        let d = vs.drop_last();
        assert forall|i: int| 0 <= i < d.len() implies #[trigger] height(d[i]) <= l by {
            assert(d[i] == vs[i]);
        }
        lemma_items_height_bound(d, l);
        assert(height(vs[vs.len() - 1]) <= l);
    }
}

proof fn lemma_pairs_height_bound(ps: Seq<(int, Value)>, l: nat)
    requires
        forall|i: int| 0 <= i < ps.len() ==> #[trigger] height(ps[i].1) <= l,
    ensures
        pairs_height(ps) <= l,
    decreases ps.len(),
{
    if ps.len() > 0 {
        let d = ps.drop_last();
        assert forall|i: int| 0 <= i < d.len() implies #[trigger] height(d[i].1) <= l by {
            assert(d[i] == ps[i]);
        }
        lemma_pairs_height_bound(d, l);
        assert(height(ps[ps.len() - 1].1) <= l);
    }
}

/// Calls `num_bigint::BigUint::from_bytes_le` and writes the number with
/// `ToString::to_string`: the crate's documentation has the number be the little-endian
/// value of the bytes, and its `Display` writes it in decimal.
#[verifier::external_body]
fn le_bytes_decimal(bytes: &[u8]) -> (res: String)
    ensures
        res@ == decimal_chars(le_value(bytes@)),
{
    num_bigint::BigUint::from_bytes_le(bytes).to_string()
}

/// Two spaces for each of `n` levels.
fn indent_string(n: usize) -> (s: String)
    ensures
        s@ == indent(n as nat),
{
    let mut s = String::new();
    let mut i: usize = 0;
    while i < n
        invariant
            i <= n,
            s@ == indent(i as nat),
        decreases n - i,
    {
        s.append("  ");
        i += 1;
    }
    s
}

impl DataType {
    /// The text of the value at nesting level `level`: numbers with their type as a
    /// suffix, arrays and tables one item per line.
    pub fn pretty_print(&self, level: usize) -> (s: String)
        requires
            tables_distinct(self@),
            level + 2 * height(self@) <= usize::MAX,
        ensures
            s@ == pretty(self@, level as nat),
        decreases self,
    {
        match self {
            DataType::UInt8(i) => {
                let mut s = u64_decimal(*i as u64);
                s.append("_u8");
                s
            },
            DataType::UInt32(i) => {
                let mut s = u64_decimal(*i as u64);
                s.append("_u32");
                s
            },
            DataType::UInt64(i) => {
                let mut s = u64_decimal(*i);
                s.append("_u64");
                s
            },
            DataType::Str(t) => {
                let mut s = String::from_str("\"");
                s.append(t.as_str());
                s.append("\"");
                s
            },
            DataType::Blob(b) => {
                let mut s = le_bytes_decimal(b.as_slice());
                s.append("_bytes");
                s
            },
            DataType::VInt(x) => {
                let mut s = x.to_decimal_string();
                s.append("_vint");
                s
            },
            DataType::Optional(Some(b)) => {
                let mut s = String::from_str("Some(");
                let inner = b.pretty_print(level);
                s.append(inner.as_str());
                s.append(")");
                s
            },
            DataType::Optional(None) => String::from_str("None"),
            DataType::Array(v) => {
                let ghost vs = items_view(v@);
                proof {
                    lemma_items_view(v@);
                }
                let mut s = String::from_str("[\n");
                let ghost head = s@;
                let mut i: usize = 0;
                assert(vs.take(0) =~= Seq::<Value>::empty());
                while i < v.len()
                    invariant
                        i <= v@.len(),
                        vs == items_view(v@),
                        vs.len() == v@.len(),
                        forall|k: int| 0 <= k < v@.len() ==> #[trigger] vs[k] == data_view(*v@[k]),
                        level + 2 * height(self@) <= usize::MAX,
                        tables_distinct(self@),
                        self@ == Value::Array(vs),
                        *self == DataType::Array(*v),
                        s@ == head + pretty_items(vs.take(i as int), level as nat),
                    decreases v@.len() - i,
                {
                    let item: &DataType = &v[i];
                    proof {
                        lemma_items_height(vs, i as int);
                        assert(tables_distinct(vs[i as int]));
                        assert(vs.take(i + 1).drop_last() =~= vs.take(i as int));
                        assert(vs.take(i + 1).last() == item@);
                        assert(decreases_to!(*v => v@));
                        assert(decreases_to!(v@ => v@[i as int]));
                        assert(decreases_to!(*self => *v));
                    }
                    let line = item.pretty_print(level + 1);
                    let pad = indent_string(level);
                    s.append(pad.as_str());
                    s.append(line.as_str());
                    s.append(",\n");
                    i += 1;
                }
                assert(vs.take(i as int) =~= vs);
                let pad = indent_string(level);
                s.append(pad.as_str());
                s.append("]");
                s
            },
            DataType::HashMap(kv) => {
                let ghost ps = pairs_view(kv@);
                proof {
                    lemma_pairs_view(kv@);
                }
                let mut s = String::from_str("{\n");
                let ghost head = s@;
                let mut i: usize = 0;
                assert(ps.take(0) =~= Seq::<(int, Value)>::empty());
                while i < kv.len()
                    invariant
                        i <= kv@.len(),
                        ps == pairs_view(kv@),
                        ps.len() == kv@.len(),
                        forall|k: int| 0 <= k < kv@.len() ==> #[trigger] ps[k] == (kv@[k].0@, data_view(*kv@[k].1)),
                        level + 2 * height(self@) <= usize::MAX,
                        tables_distinct(self@),
                        self@ == Value::HashMap(ps),
                        *self == DataType::HashMap(*kv),
                        s@ == head + pretty_pairs(ps.take(i as int), level as nat),
                    decreases kv@.len() - i,
                {
                    let key: &Integer = &kv[i].0;
                    let item: &DataType = &kv[i].1;
                    proof {
                        lemma_pairs_height(ps, i as int);
                        assert(tables_distinct(ps[i as int].1));
                        assert(ps.take(i + 1).drop_last() =~= ps.take(i as int));
                        assert(ps.take(i + 1).last() == (key@, item@));
                        assert(decreases_to!(*kv => kv@));
                        assert(decreases_to!(kv@ => kv@[i as int]));
                        assert(decreases_to!(kv@[i as int] => kv@[i as int].1));
                        assert(decreases_to!(*self => *kv));
                    }
                    let line = item.pretty_print(level + 2);
                    let pad = indent_string(level + 1);
                    let k = key.to_decimal_string();
                    s.append(pad.as_str());
                    s.append(k.as_str());
                    s.append(": ");
                    s.append(line.as_str());
                    s.append(",\n");
                    i += 1;
                }
                assert(ps.take(i as int) =~= ps);
                let pad = indent_string(if level > 0 { level - 1 } else { level });
                s.append(pad.as_str());
                s.append("}");
                s
            },
        }
    }

    /// Whether no table in the value, at any depth, has a key twice.
    pub fn has_distinct_tables(&self) -> (r: bool)
        ensures
            r == tables_distinct(self@),
        decreases self,
    {
        match self {
            DataType::Optional(Some(b)) => b.has_distinct_tables(),
            DataType::Array(v) => {
                let ghost vs = items_view(v@);
                proof {
                    lemma_items_view(v@);
                }
                let mut i: usize = 0;
                while i < v.len()
                    invariant
                        i <= v@.len(),
                        vs == items_view(v@),
                        vs.len() == v@.len(),
                        forall|k: int| 0 <= k < v@.len() ==> #[trigger] vs[k] == data_view(*v@[k]),
                        self@ == Value::Array(vs),
                        *self == DataType::Array(*v),
                        forall|k: int| 0 <= k < i ==> tables_distinct(#[trigger] vs[k]),
                    decreases v@.len() - i,
                {
                    let item: &DataType = &v[i];
                    proof {
                        assert(decreases_to!(*v => v@));
                        assert(decreases_to!(v@ => v@[i as int]));
                        assert(decreases_to!(*self => *v));
                    }
                    if !item.has_distinct_tables() {
                        assert(vs[i as int] == item@);
                        assert(!tables_distinct(vs[i as int]));
                        assert(Value::Array(vs)->Array_0 == vs);
                        assert(!tables_distinct(self@));
                        return false;
                    }
                    i += 1;
                }
                true
            },
            DataType::HashMap(kv) => {
                let ghost ps = pairs_view(kv@);
                proof {
                    lemma_pairs_view(kv@);
                }
                let mut i: usize = 0;
                while i < kv.len()
                    invariant
                        i <= kv@.len(),
                        ps == pairs_view(kv@),
                        ps.len() == kv@.len(),
                        forall|k: int| 0 <= k < kv@.len() ==> #[trigger] ps[k] == (kv@[k].0@, data_view(*kv@[k].1)),
                        self@ == Value::HashMap(ps),
                        *self == DataType::HashMap(*kv),
                        forall|k: int| 0 <= k < i ==> tables_distinct(#[trigger] ps[k].1),
                    decreases kv@.len() - i,
                {
                    let item: &DataType = &kv[i].1;
                    proof {
                        assert(decreases_to!(*kv => kv@));
                        assert(decreases_to!(kv@ => kv@[i as int]));
                        assert(decreases_to!(kv@[i as int] => kv@[i as int].1));
                        assert(decreases_to!(*self => *kv));
                    }
                    if !item.has_distinct_tables() {
                        assert(ps[i as int].1 == item@);
                        assert(!tables_distinct(ps[i as int].1));
                        assert(!tables_distinct(self@));
                        return false;
                    }
                    i += 1;
                }
                let mut a: usize = 0;
                while a < kv.len()
                    invariant
                        a <= kv@.len(),
                        ps == pairs_view(kv@),
                        ps.len() == kv@.len(),
                        forall|k: int| 0 <= k < kv@.len() ==> #[trigger] ps[k] == (kv@[k].0@, data_view(*kv@[k].1)),
                        forall|x: int, y: int| 0 <= x < a && x < y < ps.len() ==> #[trigger] ps[x].0 != #[trigger] ps[y].0,
                        self@ == Value::HashMap(ps),
                    decreases kv@.len() - a,
                {
                    let mut b: usize = a + 1;
                    while b < kv.len()
                        invariant
                            a < kv@.len(),
                            a + 1 <= b <= kv@.len(),
                            ps == pairs_view(kv@),
                            ps.len() == kv@.len(),
                            forall|k: int| 0 <= k < kv@.len() ==> #[trigger] ps[k] == (kv@[k].0@, data_view(*kv@[k].1)),
                            forall|y: int| a < y < b ==> ps[a as int].0 != #[trigger] ps[y].0,
                            self@ == Value::HashMap(ps),
                        decreases kv@.len() - b,
                    {
                        if kv[a].0.same_value(&kv[b].0) {
                            assert(ps[a as int] == (kv@[a as int].0@, data_view(*kv@[a as int].1)));
                            assert(ps[b as int] == (kv@[b as int].0@, data_view(*kv@[b as int].1)));
                            assert(ps[a as int].0 == ps[b as int].0);
                            assert(!keys_distinct(ps));
                            assert(!tables_distinct(self@));
                            return false;
                        }
                        b += 1;
                    }
                    a += 1;
                }
                assert(keys_distinct(ps));
                true
            },
            _ => true,
        }
    }

    /// Whether the value nests at most `limit` levels deep.
    pub fn height_within(&self, limit: usize) -> (r: bool)
        ensures
            r == (height(self@) <= limit),
        decreases self,
    {
        match self {
            DataType::Optional(Some(b)) => {
                if limit == 0 {
                    return false;
                }
                b.height_within(limit - 1)
            },
            DataType::Array(v) => {
                if limit == 0 {
                    return false;
                }
                let ghost vs = items_view(v@);
                proof {
                    lemma_items_view(v@);
                }
                let mut i: usize = 0;
                while i < v.len()
                    invariant
                        0 < limit,
                        i <= v@.len(),
                        vs == items_view(v@),
                        vs.len() == v@.len(),
                        forall|k: int| 0 <= k < v@.len() ==> #[trigger] vs[k] == data_view(*v@[k]),
                        self@ == Value::Array(vs),
                        *self == DataType::Array(*v),
                        forall|k: int| 0 <= k < i ==> #[trigger] height(vs[k]) <= limit - 1,
                    decreases v@.len() - i,
                {
                    let item: &DataType = &v[i];
                    proof {
                        assert(decreases_to!(*v => v@));
                        assert(decreases_to!(v@ => v@[i as int]));
                        assert(decreases_to!(*self => *v));
                    }
                    if !item.height_within(limit - 1) {
                        proof {
                            lemma_items_height(vs, i as int);
                        }
                        return false;
                    }
                    i += 1;
                }
                proof {
                    lemma_items_height_bound(vs, (limit - 1) as nat);
                }
                true
            },
            DataType::HashMap(kv) => {
                if limit == 0 {
                    return false;
                }
                let ghost ps = pairs_view(kv@);
                proof {
                    lemma_pairs_view(kv@);
                }
                let mut i: usize = 0;
                while i < kv.len()
                    invariant
                        0 < limit,
                        i <= kv@.len(),
                        ps == pairs_view(kv@),
                        ps.len() == kv@.len(),
                        forall|k: int| 0 <= k < kv@.len() ==> #[trigger] ps[k] == (kv@[k].0@, data_view(*kv@[k].1)),
                        self@ == Value::HashMap(ps),
                        *self == DataType::HashMap(*kv),
                        forall|k: int| 0 <= k < i ==> #[trigger] height(ps[k].1) <= limit - 1,
                    decreases kv@.len() - i,
                {
                    let item: &DataType = &kv[i].1;
                    proof {
                        assert(decreases_to!(*kv => kv@));
                        assert(decreases_to!(kv@ => kv@[i as int]));
                        assert(decreases_to!(kv@[i as int] => kv@[i as int].1));
                        assert(decreases_to!(*self => *kv));
                    }
                    if !item.height_within(limit - 1) {
                        proof {
                            lemma_pairs_height(ps, i as int);
                        }
                        return false;
                    }
                    i += 1;
                }
                proof {
                    lemma_pairs_height_bound(ps, (limit - 1) as nat);
                }
                true
            },
            _ => true,
        }
    }

    /// The text of the value, as its `Display` writes it: `pretty_print` at level zero.
    pub fn to_string(&self) -> (s: String)
        requires
            tables_distinct(self@),
            2 * height(self@) <= usize::MAX,
        ensures
            s@ == pretty(self@, 0),
    {
        self.pretty_print(0)
    }
}

} // verus!
