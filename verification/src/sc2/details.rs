use vstd::prelude::*;
use vstd::pervasive::unreached;
use vstd::string::StrSliceExecFns;
use vstd::utf8::valid_utf8;

use crate::numbers::Integer;
use crate::table::{key_index, kv_fold, kv_get, kv_insert, lemma_key_index};
use crate::utils::{ascii_lower_chars, decode_utf8, is_ascii_chars};
use super::structs::{
    data_view, items_view, lemma_items_view, lemma_pairs_view, pairs_view, BNet, BNetView, Color,
    ColorView, DataType, Details, DetailsView, Player, PlayerView, Value,
};

verus! {

/// The text that the blob `v` holds in UTF-8; `None` where `v` is no blob of valid UTF-8.
pub open spec fn text_of(v: Option<Value>) -> Option<Seq<char>> {
    match v {
        Some(Value::Blob(b)) => if valid_utf8(b) {
            Some(vstd::utf8::decode_utf8(b))
        } else {
            None
        },
        _ => None,
    }
}

/// The integer that `v` holds, if it is one.
pub open spec fn vint_of(v: Option<Value>) -> Option<int> {
    match v {
        Some(Value::VInt(i)) => Some(i),
        _ => None,
    }
}

/// The byte that `v` holds, if it is one.
pub open spec fn u8_of(v: Option<Value>) -> Option<u8> {
    match v {
        Some(Value::UInt8(i)) => Some(i),
        _ => None,
    }
}

/// The 32-bit integer that `v` holds, if it is one.
pub open spec fn u32_of(v: Option<Value>) -> Option<u32> {
    match v {
        Some(Value::UInt32(i)) => Some(i),
        _ => None,
    }
}

/// The table that `v` holds, if it is one.
pub open spec fn table_of(v: Option<Value>) -> Option<Seq<(int, Value)>> {
    match v {
        Some(Value::HashMap(m)) => Some(m),
        _ => None,
    }
}

/// The array that `v` holds, if it is one.
pub open spec fn array_of(v: Option<Value>) -> Option<Seq<Value>> {
    match v {
        Some(Value::Array(vs)) => Some(vs),
        _ => None,
    }
}

/// A Battle.net identity: the region (key 0), the program (key 1), the subregion (key 2)
/// and the user (key 4); `None` where one is missing or of another type.
pub open spec fn spec_bnet(m: Seq<(int, Value)>) -> Option<BNetView> {
    match (vint_of(kv_get(m, 0)), u32_of(kv_get(m, 1)), vint_of(kv_get(m, 2)), vint_of(kv_get(m, 4))) {
        (Some(region), Some(program_id), Some(subregion), Some(uid)) => Some(
            BNetView { region, program_id, subregion, uid },
        ),
        _ => None,
    }
}

/// A colour: each of its four components is the integer of key 0.
pub open spec fn spec_color(m: Seq<(int, Value)>) -> Option<ColorView> {
    match vint_of(kv_get(m, 0)) {
        Some(x) => Some(ColorView { a: x, r: x, g: x, b: x }),
        None => None,
    }
}

/// A player: name (key 0), Battle.net identity (1), race (2), colour (3), control (4),
/// team (5), handicap (6), observer status (7) and result (8).
#[verifier::opaque]
pub open spec fn spec_player(m: Seq<(int, Value)>) -> Option<PlayerView> {
    let bnet = match table_of(kv_get(m, 1)) {
        Some(t) => spec_bnet(t),
        None => None,
    };
    let color = match table_of(kv_get(m, 3)) {
        Some(t) => spec_color(t),
        None => None,
    };
    match (text_of(kv_get(m, 0)), bnet, text_of(kv_get(m, 2)), color, vint_of(kv_get(m, 4))) {
        (Some(name), Some(bnet), Some(race), Some(color), Some(control)) => match (
            vint_of(kv_get(m, 5)),
            vint_of(kv_get(m, 6)),
            vint_of(kv_get(m, 7)),
            vint_of(kv_get(m, 8)),
        ) {
            (Some(team), Some(handicap), Some(observe), Some(result)) => Some(
                PlayerView { name, bnet, race, color, control, team, handicap, observe, result },
            ),
            _ => None,
        },
        _ => None,
    }
}

/// A player's fields come from fixed keys of its table: the name (UTF-8 text) at key 0, the
/// Battle.net identity at key 1, the race at key 2, the colour at key 3, and the integers of
/// control, team, handicap, observer status and result at keys 4, 5, 6, 7 and 8.
pub proof fn lemma_player_keys(m: Seq<(int, Value)>)
    ensures
        spec_player(m) matches Some(p) ==> {
            &&& kv_get(m, 0) matches Some(Value::Blob(b)) && valid_utf8(b) && p.name == vstd::utf8::decode_utf8(b)
            &&& kv_get(m, 1) matches Some(Value::HashMap(t)) && spec_bnet(t) == Some(p.bnet)
            &&& kv_get(m, 2) matches Some(Value::Blob(b)) && valid_utf8(b) && p.race == vstd::utf8::decode_utf8(b)
            &&& kv_get(m, 3) matches Some(Value::HashMap(t)) && spec_color(t) == Some(p.color)
            &&& kv_get(m, 4) == Some(Value::VInt(p.control))
            &&& kv_get(m, 5) == Some(Value::VInt(p.team))
            &&& kv_get(m, 6) == Some(Value::VInt(p.handicap))
            &&& kv_get(m, 7) == Some(Value::VInt(p.observe))
            &&& kv_get(m, 8) == Some(Value::VInt(p.result))
        },
{
    reveal(spec_player);
}

/// A Battle.net identity comes from fixed keys of its table: the region at key 0, the
/// program (a 32-bit integer) at key 1, the subregion at key 2 and the user at key 4; a
/// colour takes each of its four components from key 0.
pub proof fn lemma_bnet_color_keys(m: Seq<(int, Value)>)
    ensures
        spec_bnet(m) matches Some(b) ==> {
            &&& kv_get(m, 0) == Some(Value::VInt(b.region))
            &&& kv_get(m, 1) == Some(Value::UInt32(b.program_id))
            &&& kv_get(m, 2) == Some(Value::VInt(b.subregion))
            &&& kv_get(m, 4) == Some(Value::VInt(b.uid))
        },
        spec_color(m) matches Some(c) ==> kv_get(m, 0) == Some(Value::VInt(c.a)) && c.r == c.a && c.g == c.a
            && c.b == c.a,
{
}

/// Each player read from an array is the player of the table at its position.
pub proof fn lemma_players_each(vs: Seq<Value>)
    ensures
        spec_players(vs) matches Some(ps) ==> ps.len() == vs.len() && forall|i: int|
            0 <= i < vs.len() ==> (#[trigger] vs[i] matches Value::HashMap(m) && spec_player(m) == Some(ps[i])),
    decreases vs.len(),
{
    if vs.len() > 0 {
        lemma_players_each(vs.drop_last());
        if let Some(ps) = spec_players(vs) {
            let d = vs.drop_last();
            assert forall|i: int| 0 <= i < vs.len() implies (#[trigger] vs[i] matches Value::HashMap(m) && spec_player(m)
                == Some(ps[i])) by {
                if i < vs.len() - 1 {
                    assert(vs[i] == d[i]);
                }
            }
        }
    }
}

/// The players of an array of tables.
pub open spec fn spec_players(vs: Seq<Value>) -> Option<Seq<PlayerView>>
    decreases vs.len(),
{
    if vs.len() == 0 {
        Some(seq![])
    } else {
        match (spec_players(vs.drop_last()), vs.last()) {
            (Some(ps), Value::HashMap(m)) => match spec_player(m) {
                Some(p) => Some(ps.push(p)),
                None => None,
            },
            _ => None,
        }
    }
}

/// The thumbnail: the text of key 0.
pub open spec fn spec_thumbnail(m: Seq<(int, Value)>) -> Option<Seq<char>> {
    text_of(kv_get(m, 0))
}

/// A character that is trimmed from a server name.
pub open spec fn is_pad(c: char) -> bool {
    c == '\0' || c == ' '
}

/// `s` without the padding characters at its start.
pub open spec fn trim_front(s: Seq<char>) -> Seq<char>
    decreases s.len(),
{
    if s.len() > 0 && is_pad(s[0]) {
        trim_front(s.drop_first())
    } else {
        s
    }
}

/// `s` without the padding characters at its end.
pub open spec fn trim_back(s: Seq<char>) -> Seq<char>
    decreases s.len(),
{
    if s.len() > 0 && is_pad(s.last()) {
        trim_back(s.drop_last())
    } else {
        s
    }
}

/// The lowercase hexadecimal digit `d`.
pub open spec fn hex_digit(d: nat) -> char {
    if d < 10 {
        (48 + d) as char
    } else {
        (87 + d) as char
    }
}

/// The bytes `b` in lowercase hexadecimal, two digits each.
pub open spec fn hex_chars(b: Seq<u8>) -> Seq<char>
    decreases b.len(),
{
    if b.len() == 0 {
        seq![]
    } else {
        hex_chars(b.drop_last()) + seq![hex_digit((b.last() / 16) as nat), hex_digit((b.last() % 16) as nat)]
    }
}

/// What `str::to_lowercase` returns for the characters `s`.
pub uninterp spec fn lowercased(s: Seq<char>) -> Seq<char>;

/// The lower case of `s` as `str::to_lowercase` gives it: on ASCII text, the ASCII lower case
/// of each character; on other text, the Unicode lower case, which is left named.
pub open spec fn lower_case(s: Seq<char>) -> Seq<char> {
    if is_ascii_chars(s) {
        ascii_lower_chars(s)
    } else {
        lowercased(s)
    }
}

/// The address of a cache file from its handle: four bytes of file type, four bytes of
/// server region, then the file's hash. `None` where the handle is shorter than eight
/// bytes or its type or region is not UTF-8.
pub open spec fn cache_url(b: Seq<u8>) -> Option<Seq<char>> {
    if b.len() < 8 || !valid_utf8(b.subrange(4, 8)) || !valid_utf8(b.subrange(0, 4)) {
        None
    } else {
        let server = lower_case(trim_back(trim_front(vstd::utf8::decode_utf8(b.subrange(4, 8)))));
        let kind = vstd::utf8::decode_utf8(b.subrange(0, 4));
        let hash = hex_chars(b.skip(8));
        let scheme = if server == "cn"@ { "http"@ } else { "https"@ };
        let host = if server == "sea"@ { "us"@ } else { server };
        let domain = if server == "cn"@ { "battlenet.com.cn"@ } else { "classic.blizzard.com"@ };
        Some(scheme + "://"@ + host + "-s2-depot."@ + domain + "/"@ + hash + "."@ + kind)
    }
}

/// The addresses of the cache files of an array of handles.
pub open spec fn spec_cache_handle(vs: Seq<Value>) -> Option<Seq<Seq<char>>>
    decreases vs.len(),
{
    if vs.len() == 0 {
        Some(seq![])
    } else {
        match (spec_cache_handle(vs.drop_last()), vs.last()) {
            (Some(us), Value::Blob(b)) => match cache_url(b) {
                Some(u) => Some(us.push(u)),
                None => None,
            },
            _ => None,
        }
    }
}

/// The details of a game come from fixed keys of their table: the players from the array
/// at key 0, the texts of map name, difficulty, description, image file path and map file
/// name at keys 1, 2, 7, 8 and 9, the thumbnail from the table at key 3, the bytes of the
/// Blizzard map flag and the mini save at keys 4 and 11, the integers of file time, UTC
/// adjustment, game speed and default difficulty at keys 5, 6, 12 and 13, and the cache
/// handles from the array at key 10.
pub proof fn lemma_details_keys(m: Seq<(int, Value)>)
    ensures
        spec_details(m) matches Some(d) ==> {
            &&& kv_get(m, 0) matches Some(Value::Array(vs)) && spec_players(vs) == Some(d.players)
            &&& text_of(kv_get(m, 1)) == Some(d.map_name)
            &&& text_of(kv_get(m, 2)) == Some(d.difficulty)
            &&& kv_get(m, 3) matches Some(Value::HashMap(t)) && spec_thumbnail(t) == Some(d.thumbnail)
            &&& kv_get(m, 4) == Some(Value::UInt8(d.blizz_map))
            &&& kv_get(m, 5) == Some(Value::VInt(d.file_time))
            &&& kv_get(m, 6) == Some(Value::VInt(d.utc_adjustment))
            &&& text_of(kv_get(m, 7)) == Some(d.description)
            &&& text_of(kv_get(m, 8)) == Some(d.image_file_path)
            &&& text_of(kv_get(m, 9)) == Some(d.map_file_name)
            &&& kv_get(m, 10) matches Some(Value::Array(vs)) && spec_cache_handle(vs) == Some(d.cache_handle)
            &&& kv_get(m, 11) == Some(Value::UInt8(d.mini_save))
            &&& kv_get(m, 12) == Some(Value::VInt(d.game_speed))
            &&& kv_get(m, 13) == Some(Value::VInt(d.default_difficulty))
        },
{
}

/// The details of a game from their table: players (key 0), map name (1), difficulty (2),
/// thumbnail (3), whether the map is Blizzard's (4), file time (5), UTC adjustment (6),
/// description (7), image file path (8), map file name (9), cache handles (10), mini save
/// (11), game speed (12) and default difficulty (13). `None` where one is missing or of
/// another type.
pub open spec fn spec_details(m: Seq<(int, Value)>) -> Option<DetailsView> {
    let players = match array_of(kv_get(m, 0)) {
        Some(vs) => spec_players(vs),
        None => None,
    };
    let thumbnail = match table_of(kv_get(m, 3)) {
        Some(t) => spec_thumbnail(t),
        None => None,
    };
    let cache_handle = match array_of(kv_get(m, 10)) {
        Some(vs) => spec_cache_handle(vs),
        None => None,
    };
    match (players, text_of(kv_get(m, 1)), text_of(kv_get(m, 2)), thumbnail, u8_of(kv_get(m, 4))) {
        (Some(players), Some(map_name), Some(difficulty), Some(thumbnail), Some(blizz_map)) => match (
            vint_of(kv_get(m, 5)),
            vint_of(kv_get(m, 6)),
            text_of(kv_get(m, 7)),
            text_of(kv_get(m, 8)),
            text_of(kv_get(m, 9)),
        ) {
            (Some(file_time), Some(utc_adjustment), Some(description), Some(image_file_path), Some(
                map_file_name,
            )) => match (cache_handle, u8_of(kv_get(m, 11)), vint_of(kv_get(m, 12)), vint_of(kv_get(m, 13))) {
                (Some(cache_handle), Some(mini_save), Some(game_speed), Some(default_difficulty)) => Some(
                    DetailsView {
                        players,
                        map_name,
                        difficulty,
                        thumbnail,
                        blizz_map,
                        file_time,
                        utc_adjustment,
                        description,
                        image_file_path,
                        map_file_name,
                        cache_handle,
                        mini_save,
                        default_difficulty,
                        game_speed,
                    },
                ),
                _ => None,
            },
            _ => None,
        },
        _ => None,
    }
}

/// The key of each pair of a colour table, taken modulo `2^64` where it is above zero and
/// as zero otherwise, with the integer it holds; `None` where a value is not an integer.
pub open spec fn color_pairs(ps: Seq<(int, Value)>) -> Option<Seq<(u64, int)>>
    decreases ps.len(),
{
    if ps.len() == 0 {
        Some(seq![])
    } else {
        match (color_pairs(ps.drop_last()), ps.last().1) {
            (Some(cs), Value::VInt(i)) => {
                let k = ps.last().0;
                Some(cs.push((if k > 0 { (k % 0x1_0000_0000_0000_0000) as u64 } else { 0u64 }, i)))
            },
            _ => None,
        }
    }
}

/// Calls `str::to_lowercase`. The result is the Unicode lower case of `s`, which this
/// contract names; of ASCII text, as the Unicode case mapping of the ASCII letters gives it,
/// it states that each character becomes its ASCII lower case. The lower case of other
/// characters is left unsaid.
#[verifier::external_body]
fn to_lowercase_string(s: &str) -> (res: String)
    ensures
        res@ == lowercased(s@),
        is_ascii_chars(s@) ==> res@ == ascii_lower_chars(s@),
{
    s.to_lowercase()
}

/// The value of key `k` in the table `kv`, as `kv_get` states it.
pub fn table_get<'a>(kv: &'a Vec<(Integer, Box<DataType>)>, k: &Integer) -> (res: Option<&'a DataType>)
    ensures
        match res {
            Some(d) => kv_get(pairs_view(kv@), k@) == Some(d@),
            None => kv_get(pairs_view(kv@), k@) is None,
        },
{
    let ghost pm = pairs_view(kv@);
    proof {
        lemma_pairs_view(kv@);
    }
    let mut j: usize = 0;
    while j < kv.len()
        invariant
            j <= kv@.len(),
            pm == pairs_view(kv@),
            pm.len() == kv@.len(),
            forall|i: int| 0 <= i < j ==> pm[i].0 != k@,
            forall|i: int| 0 <= i < kv@.len() ==> #[trigger] pm[i] == (kv@[i].0@, data_view(*kv@[i].1)),
        decreases kv@.len() - j,
    {
        if kv[j].0.same_value(k) {
            proof {
                lemma_key_index(pm, k@, j as int);
            }
            return Some(&*kv[j].1);
        }
        j += 1;
    }
    proof {
        assert(!(exists|i: int| 0 <= i < pm.len() && pm[i].0 == k@));
    }
    None
}

/// The value of the small key `k` in the table `kv`.
fn get_key(kv: &Vec<(Integer, Box<DataType>)>, k: u8) -> (res: Option<&DataType>)
    requires
        k < 128,
    ensures
        match res {
            Some(d) => kv_get(pairs_view(kv@), k as int) == Some(d@),
            None => kv_get(pairs_view(kv@), k as int) is None,
        },
{
    let key = Integer::small(k);
    table_get(kv, &key)
}

/// Decodes a blob that holds UTF-8 text.
pub fn decode_blob(v: &[u8]) -> (s: String)
    requires
        valid_utf8(v@),
    ensures
        s@ == vstd::utf8::decode_utf8(v@),
{
    match decode_utf8(v) {
        Ok(s) => s,
        Err(_) => unreached(),
    }
}

/// The text of key `k`.
fn get_text(kv: &Vec<(Integer, Box<DataType>)>, k: u8) -> (res: Option<String>)
    requires
        k < 128,
    ensures
        match text_of(kv_get(pairs_view(kv@), k as int)) {
            Some(t) => res matches Some(s) && s@ == t,
            None => res is None,
        },
{
    match get_key(kv, k) {
        Some(DataType::Blob(b)) => match decode_utf8(b.as_slice()) {
            Ok(s) => Some(s),
            Err(_) => None,
        },
        _ => None,
    }
}

/// The integer of key `k`.
fn get_vint(kv: &Vec<(Integer, Box<DataType>)>, k: u8) -> (res: Option<Integer>)
    requires
        k < 128,
    ensures
        match vint_of(kv_get(pairs_view(kv@), k as int)) {
            Some(x) => res matches Some(i) && i@ == x,
            None => res is None,
        },
{
    match get_key(kv, k) {
        Some(DataType::VInt(i)) => Some(i.copy()),
        _ => None,
    }
}

/// The byte of key `k`.
fn get_u8(kv: &Vec<(Integer, Box<DataType>)>, k: u8) -> (res: Option<u8>)
    requires
        k < 128,
    ensures
        res == u8_of(kv_get(pairs_view(kv@), k as int)),
{
    match get_key(kv, k) {
        Some(DataType::UInt8(i)) => Some(*i),
        _ => None,
    }
}

/// The 32-bit integer of key `k`.
fn get_u32(kv: &Vec<(Integer, Box<DataType>)>, k: u8) -> (res: Option<u32>)
    requires
        k < 128,
    ensures
        res == u32_of(kv_get(pairs_view(kv@), k as int)),
{
    match get_key(kv, k) {
        Some(DataType::UInt32(i)) => Some(*i),
        _ => None,
    }
}

/// The table of key `k`.
fn get_table(kv: &Vec<(Integer, Box<DataType>)>, k: u8) -> (res: Option<&Vec<(Integer, Box<DataType>)>>)
    requires
        k < 128,
    ensures
        match table_of(kv_get(pairs_view(kv@), k as int)) {
            Some(t) => res matches Some(v) && pairs_view(v@) == t,
            None => res is None,
        },
{
    match get_key(kv, k) {
        Some(DataType::HashMap(m)) => Some(m),
        _ => None,
    }
}

/// The array of key `k`.
fn get_array(kv: &Vec<(Integer, Box<DataType>)>, k: u8) -> (res: Option<&Vec<Box<DataType>>>)
    requires
        k < 128,
    ensures
        match array_of(kv_get(pairs_view(kv@), k as int)) {
            Some(vs) => res matches Some(v) && items_view(v@) == vs,
            None => res is None,
        },
{
    match get_key(kv, k) {
        Some(DataType::Array(v)) => Some(v),
        _ => None,
    }
}

/// The Battle.net identity of its table, as `spec_bnet` states it.
fn bnet_of(m: &Vec<(Integer, Box<DataType>)>) -> (res: Option<BNet>)
    ensures
        match spec_bnet(pairs_view(m@)) {
            Some(b) => res matches Some(x) && x@ == b,
            None => res is None,
        },
{
    let region = match get_vint(m, 0) {
        Some(x) => x,
        None => return None,
    };
    let program_id = match get_u32(m, 1) {
        Some(x) => x,
        None => return None,
    };
    let subregion = match get_vint(m, 2) {
        Some(x) => x,
        None => return None,
    };
    let uid = match get_vint(m, 4) {
        Some(x) => x,
        None => return None,
    };
    Some(BNet { region, program_id, subregion, uid })
}

/// The colour of its table, as `spec_color` states it.
fn color_of(m: &Vec<(Integer, Box<DataType>)>) -> (res: Option<Color>)
    ensures
        match spec_color(pairs_view(m@)) {
            Some(c) => res matches Some(x) && x@ == c,
            None => res is None,
        },
{
    let a = match get_vint(m, 0) {
        Some(x) => x,
        None => return None,
    };
    let r = a.copy();
    let g = a.copy();
    let b = a.copy();
    Some(Color { a, r, g, b })
}

/// The player of its table, as `spec_player` states it.
fn player_of(m: &Vec<(Integer, Box<DataType>)>) -> (res: Option<Player>)
    ensures
        match spec_player(pairs_view(m@)) {
            Some(p) => res matches Some(x) && x@ == p,
            None => res is None,
        },
{
    reveal(spec_player);
    let name = match get_text(m, 0) {
        Some(x) => x,
        None => return None,
    };
    let bnet = match get_table(m, 1) {
        Some(t) => match bnet_of(t) {
            Some(x) => x,
            None => return None,
        },
        None => return None,
    };
    let race = match get_text(m, 2) {
        Some(x) => x,
        None => return None,
    };
    let color = match get_table(m, 3) {
        Some(t) => match color_of(t) {
            Some(x) => x,
            None => return None,
        },
        None => return None,
    };
    let control = match get_vint(m, 4) {
        Some(x) => x,
        None => return None,
    };
    let team = match get_vint(m, 5) {
        Some(x) => x,
        None => return None,
    };
    let handicap = match get_vint(m, 6) {
        Some(x) => x,
        None => return None,
    };
    let observe = match get_vint(m, 7) {
        Some(x) => x,
        None => return None,
    };
    let result = match get_vint(m, 8) {
        Some(x) => x,
        None => return None,
    };
    Some(Player { name, bnet, race, color, control, team, handicap, observe, result })
}

/// The players of an array of tables, as `spec_players` states them.
fn players_of(players: &Vec<Box<DataType>>) -> (res: Option<Vec<Player>>)
    ensures
        match spec_players(items_view(players@)) {
            Some(ps) => res matches Some(v) && v@.map_values(|p: Player| p@) == ps,
            None => res is None,
        },
{
    let ghost vs = items_view(players@);
    proof {
        lemma_items_view(players@);
    }
    let mut out: Vec<Player> = Vec::new();
    let mut i: usize = 0;
    assert(vs.take(0) =~= Seq::<Value>::empty());
    assert(out@.map_values(|p: Player| p@) =~= Seq::<PlayerView>::empty());
    while i < players.len()
        invariant
            i <= players@.len(),
            vs == items_view(players@),
            vs.len() == players@.len(),
            forall|k: int| 0 <= k < players@.len() ==> #[trigger] vs[k] == data_view(*players@[k]),
            spec_players(vs.take(i as int)) == Some(out@.map_values(|p: Player| p@)),
        decreases players@.len() - i,
    {
        let ghost prefix = vs.take(i + 1);
        assert(prefix.drop_last() =~= vs.take(i as int));
        assert(prefix.last() == vs[i as int]);
        let p = match &*players[i] {
            DataType::HashMap(m) => match player_of(m) {
                Some(p) => p,
                None => {
                    proof {
                        lemma_players_none(vs, i as int);
                    }
                    return None;
                },
            },
            _ => {
                proof {
                    lemma_players_none(vs, i as int);
                }
                return None;
            },
        };
        let ghost old_out = out@;
        out.push(p);
        assert(out@.map_values(|p: Player| p@) =~= old_out.map_values(|p: Player| p@).push(p@));
        i += 1;
    }
    assert(vs.take(i as int) =~= vs);
    Some(out)
}

/// Where the players of a prefix of an array cannot be read, neither can those of the array.
proof fn lemma_players_none(vs: Seq<Value>, i: int)
    requires
        0 <= i < vs.len(),
        spec_players(vs.take(i + 1)) is None,
    ensures
        spec_players(vs) is None,
    decreases vs.len() - i,
{
    if i + 1 < vs.len() {
        let t = vs.take(i + 2);
        assert(t.drop_last() =~= vs.take(i + 1));
        lemma_players_none(vs, i + 1);
    } else {
        assert(vs.take(i + 1) =~= vs);
    }
}

/// Reads the players of an array of tables.
pub fn parse_players(players: &Vec<Box<DataType>>) -> (res: Vec<Player>)
    requires
        spec_players(items_view(players@)) is Some,
    ensures
        spec_players(items_view(players@)) == Some(res@.map_values(|p: Player| p@)),
{
    match players_of(players) {
        Some(v) => v,
        None => unreached(),
    }
}

/// Reads the thumbnail of its table.
pub fn parse_thumbnail(thumbnail: &Vec<(Integer, Box<DataType>)>) -> (res: String)
    requires
        spec_thumbnail(pairs_view(thumbnail@)) is Some,
    ensures
        spec_thumbnail(pairs_view(thumbnail@)) == Some(res@),
{
    match get_text(thumbnail, 0) {
        Some(s) => s,
        None => unreached(),
    }
}

/// The lowercase hexadecimal digit `d`.
fn hex_digit_str(d: u8) -> (s: &'static str)
    requires
        d < 16,
    ensures
        s@ == seq![hex_digit(d as nat)],
{
    let s = if d == 0 {
            proof {
                reveal_strlit("0");
            }
            "0"
        } else if d == 1 {
            proof {
                reveal_strlit("1");
            }
            "1"
        } else if d == 2 {
            proof {
                reveal_strlit("2");
            }
            "2"
        } else if d == 3 {
            proof {
                reveal_strlit("3");
            }
            "3"
        } else if d == 4 {
            proof {
                reveal_strlit("4");
            }
            "4"
        } else if d == 5 {
            proof {
                reveal_strlit("5");
            }
            "5"
        } else if d == 6 {
            proof {
                reveal_strlit("6");
            }
            "6"
        } else if d == 7 {
            proof {
                reveal_strlit("7");
            }
            "7"
        } else if d == 8 {
            proof {
                reveal_strlit("8");
            }
            "8"
        } else if d == 9 {
            proof {
                reveal_strlit("9");
            }
            "9"
        } else if d == 10 {
            proof {
                reveal_strlit("a");
            }
            "a"
        } else if d == 11 {
            proof {
                reveal_strlit("b");
            }
            "b"
        } else if d == 12 {
            proof {
                reveal_strlit("c");
            }
            "c"
        } else if d == 13 {
            proof {
                reveal_strlit("d");
            }
            "d"
        } else if d == 14 {
            proof {
                reveal_strlit("e");
            }
            "e"
        } else if d == 15 {
            proof {
                reveal_strlit("f");
            }
            "f"
        } else {
            proof {
                reveal_strlit("f");
            }
            "f"
        };
    assert(s@ =~= seq![hex_digit(d as nat)]);
    s
}

/// The bytes `b` in lowercase hexadecimal.
fn hex_string(b: &[u8]) -> (s: String)
    ensures
        s@ == hex_chars(b@),
{
    let mut s = String::new();
    let mut i: usize = 0;
    assert(b@.take(0) =~= Seq::<u8>::empty());
    while i < b.len()
        invariant
            i <= b@.len(),
            s@ == hex_chars(b@.take(i as int)),
        decreases b@.len() - i,
    {
        let x = b[i];
        assert(b@.take(i + 1).drop_last() =~= b@.take(i as int));
        assert(b@.take(i + 1).last() == x);
        s.append(hex_digit_str(x / 16));
        s.append(hex_digit_str(x % 16));
        i += 1;
        assert(s@ =~= hex_chars(b@.take(i as int)));
    }
    assert(b@.take(i as int) =~= b@);
    s
}

/// `s` without the padding characters at its ends.
fn trim_pad(s: &str) -> (t: &str)
    ensures
        t@ == trim_back(trim_front(s@)),
{
    let n = s.unicode_len();
    let mut i: usize = 0;
    assert(s@.subrange(0, n as int) =~= s@);
    while i < n && (s.get_char(i) == '\0' || s.get_char(i) == ' ')
        invariant
            i <= n,
            n == s@.len(),
            trim_front(s@) == trim_front(s@.subrange(i as int, n as int)),
        decreases n - i,
    {
        let ghost u = s@.subrange(i as int, n as int);
        assert(u[0] == s@[i as int]);
        assert(u.drop_first() =~= s@.subrange(i + 1, n as int));
        i += 1;
    }
    proof {
        let u = s@.subrange(i as int, n as int);
        if i < n {
            assert(u[0] == s@[i as int]);
        }
        assert(trim_front(u) == u);
    }
    let mut j: usize = n;
    while j > i && (s.get_char(j - 1) == '\0' || s.get_char(j - 1) == ' ')
        invariant
            i <= j <= n,
            n == s@.len(),
            trim_back(s@.subrange(i as int, n as int)) == trim_back(s@.subrange(i as int, j as int)),
        decreases j,
    {
        let ghost u = s@.subrange(i as int, j as int);
        assert(u.last() == s@[j - 1]);
        assert(u.drop_last() =~= s@.subrange(i as int, j - 1));
        j -= 1;
    }
    proof {
        let u = s@.subrange(i as int, j as int);
        if j > i {
            assert(u.last() == s@[j - 1]);
        }
        assert(trim_back(u) == u);
    }
    s.substring_char(i, j)
}

/// The address of a cache file from its handle, as `cache_url` states it.
fn cache_url_of(bytes: &[u8]) -> (res: Option<String>)
    ensures
        match cache_url(bytes@) {
            Some(u) => res matches Some(s) && s@ == u,
            None => res is None,
        },
{
    if bytes.len() < 8 {
        return None;
    }
    let region = &bytes[4..8];
    assert(region@ =~= bytes@.subrange(4, 8));
    let server_text = match decode_utf8(region) {
        Ok(s) => s,
        Err(_) => return None,
    };
    let mut server = to_lowercase_string(trim_pad(server_text.as_str()));
    let tail = &bytes[8..bytes.len()];
    assert(tail@ =~= bytes@.skip(8));
    let hash = hex_string(tail);
    let kind_bytes = &bytes[0..4];
    assert(kind_bytes@ =~= bytes@.subrange(0, 4));
    let kind = match decode_utf8(kind_bytes) {
        Ok(s) => s,
        Err(_) => return None,
    };
    let mut scheme = String::from_str("https");
    let mut domain = String::from_str("classic.blizzard.com");
    let sea = String::from_str("sea");
    let cn = String::from_str("cn");
    proof {
        reveal_strlit("sea");
        reveal_strlit("cn");
        assert("sea"@.len() == 3);
        assert("cn"@.len() == 2);
        assert("sea"@ != "cn"@);
    }
    if server == sea {
        server = String::from_str("us");
    } else if server == cn {
        scheme = String::from_str("http");
        domain = String::from_str("battlenet.com.cn");
    }
    let mut s = scheme;
    s.append("://");
    s.append(server.as_str());
    s.append("-s2-depot.");
    s.append(domain.as_str());
    s.append("/");
    s.append(hash.as_str());
    s.append(".");
    s.append(kind.as_str());
    Some(s)
}

/// The addresses of the cache files of an array of handles, as `spec_cache_handle` states them.
fn cache_handle_of(handles: &Vec<Box<DataType>>) -> (res: Option<Vec<String>>)
    ensures
        match spec_cache_handle(items_view(handles@)) {
            Some(us) => res matches Some(v) && v@.map_values(|s: String| s@) == us,
            None => res is None,
        },
{
    let ghost vs = items_view(handles@);
    proof {
        lemma_items_view(handles@);
    }
    let mut out: Vec<String> = Vec::new();
    let mut i: usize = 0;
    assert(vs.take(0) =~= Seq::<Value>::empty());
    assert(out@.map_values(|s: String| s@) =~= Seq::<Seq<char>>::empty());
    while i < handles.len()
        invariant
            i <= handles@.len(),
            vs == items_view(handles@),
            vs.len() == handles@.len(),
            forall|k: int| 0 <= k < handles@.len() ==> #[trigger] vs[k] == data_view(*handles@[k]),
            spec_cache_handle(vs.take(i as int)) == Some(out@.map_values(|s: String| s@)),
        decreases handles@.len() - i,
    {
        let ghost prefix = vs.take(i + 1);
        assert(prefix.drop_last() =~= vs.take(i as int));
        assert(prefix.last() == vs[i as int]);
        let u = match &*handles[i] {
            DataType::Blob(b) => match cache_url_of(b.as_slice()) {
                Some(u) => u,
                None => {
                    proof {
                        lemma_cache_handle_none(vs, i as int);
                    }
                    return None;
                },
            },
            _ => {
                proof {
                    lemma_cache_handle_none(vs, i as int);
                }
                return None;
            },
        };
        let ghost old_out = out@;
        out.push(u);
        assert(out@.map_values(|s: String| s@) =~= old_out.map_values(|s: String| s@).push(u@));
        i += 1;
    }
    assert(vs.take(i as int) =~= vs);
    Some(out)
}

/// Where the addresses of a prefix of an array cannot be read, neither can those of the array.
proof fn lemma_cache_handle_none(vs: Seq<Value>, i: int)
    requires
        0 <= i < vs.len(),
        spec_cache_handle(vs.take(i + 1)) is None,
    ensures
        spec_cache_handle(vs) is None,
    decreases vs.len() - i,
{
    if i + 1 < vs.len() {
        let t = vs.take(i + 2);
        assert(t.drop_last() =~= vs.take(i + 1));
        lemma_cache_handle_none(vs, i + 1);
    } else {
        assert(vs.take(i + 1) =~= vs);
    }
}

/// Reads the addresses of the cache files of an array of handles.
pub fn parse_cache_handle(cache_handle: &Vec<Box<DataType>>) -> (res: Vec<String>)
    requires
        spec_cache_handle(items_view(cache_handle@)) is Some,
    ensures
        spec_cache_handle(items_view(cache_handle@)) == Some(res@.map_values(|s: String| s@)),
{
    match cache_handle_of(cache_handle) {
        Some(v) => v,
        None => unreached(),
    }
}

/// Reads the details of a game from their table, or gives `None` on the tables on which
/// `parse_details` panics: a key that is missing, a value of another type, text that is not
/// UTF-8 or a cache handle shorter than eight bytes.
pub fn try_parse_details(details: &Vec<(Integer, Box<DataType>)>) -> (res: Option<Details>)
    ensures
        match spec_details(pairs_view(details@)) {
            Some(d) => res matches Some(x) && x@ == d,
            None => res is None,
        },
{
    let players = match get_array(details, 0) {
        Some(v) => match players_of(v) {
            Some(x) => x,
            None => return None,
        },
        None => return None,
    };
    let map_name = match get_text(details, 1) {
        Some(x) => x,
        None => return None,
    };
    let difficulty = match get_text(details, 2) {
        Some(x) => x,
        None => return None,
    };
    let thumbnail = match get_table(details, 3) {
        Some(t) => match get_text(t, 0) {
            Some(x) => x,
            None => return None,
        },
        None => return None,
    };
    let blizz_map = match get_u8(details, 4) {
        Some(x) => x,
        None => return None,
    };
    let file_time = match get_vint(details, 5) {
        Some(x) => x,
        None => return None,
    };
    let utc_adjustment = match get_vint(details, 6) {
        Some(x) => x,
        None => return None,
    };
    let description = match get_text(details, 7) {
        Some(x) => x,
        None => return None,
    };
    let image_file_path = match get_text(details, 8) {
        Some(x) => x,
        None => return None,
    };
    let map_file_name = match get_text(details, 9) {
        Some(x) => x,
        None => return None,
    };
    let cache_handle = match get_array(details, 10) {
        Some(v) => match cache_handle_of(v) {
            Some(x) => x,
            None => return None,
        },
        None => return None,
    };
    let mini_save = match get_u8(details, 11) {
        Some(x) => x,
        None => return None,
    };
    let game_speed = match get_vint(details, 12) {
        Some(x) => x,
        None => return None,
    };
    let default_difficulty = match get_vint(details, 13) {
        Some(x) => x,
        None => return None,
    };
    Some(
        Details {
            players,
            map_name,
            difficulty,
            thumbnail,
            blizz_map,
            file_time,
            utc_adjustment,
            description,
            image_file_path,
            map_file_name,
            cache_handle,
            mini_save,
            default_difficulty,
            game_speed,
        },
    )
}

/// Reads the details of a game from their table.
pub fn parse_details(details: Vec<(Integer, Box<DataType>)>) -> (res: Details)
    requires
        spec_details(pairs_view(details@)) is Some,
    ensures
        spec_details(pairs_view(details@)) == Some(res@),
{
    match try_parse_details(&details) {
        Some(d) => d,
        None => unreached(),
    }
}

/// The table `kv` where key `k` is given the integer `v`.
fn color_insert(kv: &mut Vec<(u64, Integer)>, k: u64, v: Integer)
    ensures
        final(kv)@.map_values(|p: (u64, Integer)| (p.0, p.1@)) == kv_insert(
            old(kv)@.map_values(|p: (u64, Integer)| (p.0, p.1@)),
            k,
            v@,
        ),
{
    let ghost m = kv@.map_values(|p: (u64, Integer)| (p.0, p.1@));
    let mut j: usize = 0;
    while j < kv.len()
        invariant
            j <= kv@.len(),
            kv@ == old(kv)@,
            m == kv@.map_values(|p: (u64, Integer)| (p.0, p.1@)),
            forall|i: int| 0 <= i < j ==> m[i].0 != k,
        decreases kv@.len() - j,
    {
        if kv[j].0 == k {
            proof {
                lemma_key_index(m, k, j as int);
            }
            let ghost kv_pair = (k, v@);
            kv.set(j, (k, v));
            assert(kv@.map_values(|p: (u64, Integer)| (p.0, p.1@)) =~= m.update(j as int, kv_pair));
            return;
        }
        j += 1;
    }
    proof {
        assert(!(exists|i: int| 0 <= i < m.len() && m[i].0 == k));
        assert(key_index(m, k) is None);
    }
    let ghost kv_pair = (k, v@);
    kv.push((k, v));
    assert(kv@.map_values(|p: (u64, Integer)| (p.0, p.1@)) =~= m.push(kv_pair));
}

/// Reads a colour table into a table from 64-bit keys to integers, or gives `None` where a
/// value is not an integer: each key is taken modulo `2^64` where it is above zero and as
/// zero otherwise, and a later key replaces an earlier one that it equals.
pub fn try_parse_color_hashmap(a: &Vec<(Integer, Box<DataType>)>) -> (res: Option<Vec<(u64, Integer)>>)
    ensures
        match color_pairs(pairs_view(a@)) {
            Some(cs) => res matches Some(v) && v@.map_values(|p: (u64, Integer)| (p.0, p.1@)) == kv_fold(cs),
            None => res is None,
        },
{
    let ghost ps = pairs_view(a@);
    proof {
        lemma_pairs_view(a@);
    }
    let mut out: Vec<(u64, Integer)> = Vec::new();
    let ghost mut cs: Seq<(u64, int)> = seq![];
    let mut i: usize = 0;
    assert(ps.take(0) =~= Seq::<(int, Value)>::empty());
    assert(out@.map_values(|p: (u64, Integer)| (p.0, p.1@)) =~= Seq::<(u64, int)>::empty());
    while i < a.len()
        invariant
            i <= a@.len(),
            ps == pairs_view(a@),
            ps.len() == a@.len(),
            forall|k: int| 0 <= k < a@.len() ==> #[trigger] ps[k] == (a@[k].0@, data_view(*a@[k].1)),
            color_pairs(ps.take(i as int)) == Some(cs),
            out@.map_values(|p: (u64, Integer)| (p.0, p.1@)) == kv_fold(cs),
        decreases a@.len() - i,
    {
        let ghost prefix = ps.take(i + 1);
        assert(prefix.drop_last() =~= ps.take(i as int));
        assert(prefix.last() == ps[i as int]);
        let key: &Integer = &a[i].0;
        match &*a[i].1 {
            DataType::VInt(v) => {
                let k = if key.is_positive() {
                    key.low_u64()
                } else {
                    0
                };
                let ghost entry = (k, v@);
                color_insert(&mut out, k, v.copy());
                proof {
                    let old_cs = cs;
                    cs = cs.push(entry);
                    assert(cs.drop_last() =~= old_cs);
                }
            },
            _ => {
                proof {
                    lemma_color_pairs_none(ps, i as int);
                }
                return None;
            },
        }
        i += 1;
    }
    assert(ps.take(i as int) =~= ps);
    Some(out)
}

/// Where the pairs of a prefix of a table cannot be read, neither can those of the table.
proof fn lemma_color_pairs_none(ps: Seq<(int, Value)>, i: int)
    requires
        0 <= i < ps.len(),
        color_pairs(ps.take(i + 1)) is None,
    ensures
        color_pairs(ps) is None,
    decreases ps.len() - i,
{
    if i + 1 < ps.len() {
        let t = ps.take(i + 2);
        assert(t.drop_last() =~= ps.take(i + 1));
        lemma_color_pairs_none(ps, i + 1);
    } else {
        assert(ps.take(i + 1) =~= ps);
    }
}

/// Reads a colour table into a table from 64-bit keys to integers.
pub fn parse_color_hashmap(a: &Vec<(Integer, Box<DataType>)>) -> (res: Vec<(u64, Integer)>)
    requires
        color_pairs(pairs_view(a@)) is Some,
    ensures
        color_pairs(pairs_view(a@)) matches Some(cs) && res@.map_values(|p: (u64, Integer)| (p.0, p.1@))
            == kv_fold(cs),
{
    match try_parse_color_hashmap(a) {
        Some(v) => v,
        None => unreached(),
    }
}

} // verus!
