//! What the command-line programs decide, apart from their input and output:
//! the sample queries run against each table, and which help to show.
use vstd::prelude::*;
use crate::error::Error;
use crate::math::SCALE;
use crate::saturated_steam::{SteamTable, labelled_view};
use crate::text::text_lines;
use crate::water::{WaterTable, pairs_view, labelled, water_text_ok};
use crate::water::waterpoint::WaterModel;
use crate::saturated_steam::table_text_ok;
use crate::number::field_value;
use crate::{PREAMBLE_LINES, header_line_names};
use crate::datapoint::{DataPoint, dp_model, row_model};
use crate::water::waterpoint::{wp_model, water_row_model};

verus! {

/// `r` is what `t` answers at `x`.
pub open spec fn answered(t: SteamTable, x: int, r: Result<Vec<(String, i64)>, Error>) -> bool {
    &&& r matches Ok(p) ==> t.answer(x) == Ok::<Seq<(Seq<char>, int)>, Error>(labelled_view(p@))
    &&& r matches Err(e) ==> t.answer(x) == Err::<Seq<(Seq<char>, int)>, Error>(e)
}

/// `r` is what `t` answers at `(p, q)`, labelled.
pub open spec fn water_answered(t: WaterTable, p: int, q: int, r: Result<Vec<(String, String)>, Error>) -> bool {
    &&& r is Ok <==> t.query_result(p, q) is Ok
    &&& r matches Ok(pairs) ==> pairs_view(pairs@) == labelled(t.header_names(), t.query_result(p, q)->Ok_0)
    &&& r matches Err(e) ==> t.query_result(p, q) == Err::<WaterModel, Error>(e)
}

/// The answers of `table` at each of `points`, in order.
pub fn query_points(table: &SteamTable, points: &[i64]) -> (r: Vec<Result<Vec<(String, i64)>, Error>>)
    requires
        table.wf(),
    ensures
        r@.len() == points@.len(),
        forall|i: int| 0 <= i < points@.len() ==> answered(*table, points@[i] as int, #[trigger] r@[i]),
{
    let mut r: Vec<Result<Vec<(String, i64)>, Error>> = Vec::new();
    let mut i: usize = 0;
    while i < points.len()
        invariant
            table.wf(),
            i <= points@.len(),
            r@.len() == i,
            forall|k: int| 0 <= k < i ==> answered(*table, points@[k] as int, #[trigger] r@[k]),
        decreases points@.len() - i,
    {
        r.push(table.get_values_at_point(points[i]));
        i = i + 1;
    }
    r
}

/// Builds the table of saturated properties by pressure from its text, and
/// answers at 1, 2 and 5 units of pressure.
pub fn pressure_table(data_table: String) -> (r: Result<(SteamTable, Vec<Result<Vec<(String, i64)>, Error>>), Error>)
    ensures
        r is Ok <==> table_text_ok(text_lines(data_table@)),
        r matches Ok(res) ==> {
            &&& res.0.wf()
            &&& res.0.header_names() == header_line_names(text_lines(data_table@)[PREAMBLE_LINES as int])
            &&& res.0.rows().map_values(|dp: DataPoint| dp_model(dp)).to_multiset()
                == text_lines(data_table@).skip(PREAMBLE_LINES + 1).map_values(|l: Seq<char>| row_model(l)).to_multiset()
            &&& res.1@.len() == 3
            &&& answered(res.0, 1 * SCALE, res.1@[0])
            &&& answered(res.0, 2 * SCALE, res.1@[1])
            &&& answered(res.0, 5 * SCALE, res.1@[2])
        },
{
    let steam_table = SteamTable::new(data_table)?;
    let points: [i64; 3] = [1 * SCALE, 2 * SCALE, 5 * SCALE];
    let values = query_points(&steam_table, points.as_slice());
    Ok((steam_table, values))
}

/// Builds the table of saturated properties by temperature from its text, and
/// answers at 0.01, 100 and 373.946 units of temperature.
pub fn temperature_table(data_table: String) -> (r: Result<(SteamTable, Vec<Result<Vec<(String, i64)>, Error>>), Error>)
    ensures
        r is Ok <==> table_text_ok(text_lines(data_table@)),
        r matches Ok(res) ==> {
            &&& res.0.wf()
            &&& res.0.header_names() == header_line_names(text_lines(data_table@)[PREAMBLE_LINES as int])
            &&& res.0.rows().map_values(|dp: DataPoint| dp_model(dp)).to_multiset()
                == text_lines(data_table@).skip(PREAMBLE_LINES + 1).map_values(|l: Seq<char>| row_model(l)).to_multiset()
            &&& res.1@.len() == 3
            &&& answered(res.0, SCALE / 100, res.1@[0])
            &&& answered(res.0, 100 * SCALE, res.1@[1])
            &&& answered(res.0, 373_946_000_000, res.1@[2])
        },
{
    let steam_table = SteamTable::new(data_table)?;
    let points: [i64; 3] = [SCALE / 100, 100 * SCALE, 373_946_000_000];
    let values = query_points(&steam_table, points.as_slice());
    Ok((steam_table, values))
}

/// Builds the table of water and steam properties from its text, and answers
/// at (0.1, 50), (1.1, 500), (2, 50) and (0.02, 500) units of pressure and
/// temperature.
pub fn water_table(data_table: String) -> (r: Result<(WaterTable, Vec<Result<Vec<(String, String)>, Error>>), Error>)
    ensures
        r is Ok <==> water_text_ok(text_lines(data_table@)),
        r matches Ok(res) ==> {
            &&& res.0.wf()
            &&& res.0.header_names() == header_line_names(text_lines(data_table@)[PREAMBLE_LINES as int])
            &&& res.0.rows().len() + PREAMBLE_LINES + 1 == text_lines(data_table@).len()
            &&& forall|i: int| 0 <= i < res.0.rows().len() ==> #[trigger] wp_model(res.0.rows()[i])
                == water_row_model(text_lines(data_table@)[i + PREAMBLE_LINES + 1])
            &&& res.1@.len() == 4
            &&& water_answered(res.0, SCALE / 10, 50 * SCALE, res.1@[0])
            &&& water_answered(res.0, 11 * SCALE / 10, 500 * SCALE, res.1@[1])
            &&& water_answered(res.0, 2 * SCALE, 50 * SCALE, res.1@[2])
            &&& water_answered(res.0, SCALE / 50, 500 * SCALE, res.1@[3])
        },
{
    let water_table = WaterTable::new(data_table)?;
    let mut values: Vec<Result<Vec<(String, String)>, Error>> = Vec::new();
    values.push(water_table.get_values_at_point(SCALE / 10, 50 * SCALE));
    values.push(water_table.get_values_at_point(11 * SCALE / 10, 500 * SCALE));
    values.push(water_table.get_values_at_point(2 * SCALE, 50 * SCALE));
    values.push(water_table.get_values_at_point(SCALE / 50, 500 * SCALE));
    Ok((water_table, values))
}

/// The help that a help command asks for.
#[derive(Debug, PartialEq, Eq, Structural)]
pub enum HelpTopic {
    /// Help on every command.
    Complete,
    /// Help on the saturated-steam command.
    SaturatedSteam,
}

/// `c` is `w`, or `w`'s capital where `w` is a lower-case ASCII letter.
pub open spec fn same_letter(c: char, w: char) -> bool {
    c == w || ('a' <= w <= 'z' && (c as u32) + 32 == (w as u32))
}

/// `s` spells the lower-case word `w`, in any mix of ASCII cases.
pub open spec fn spells(s: Seq<char>, w: Seq<char>) -> bool {
    s.len() == w.len() && forall|i: int| 0 <= i < s.len() ==> same_letter(#[trigger] s[i], w[i])
}

/// Whether `s` spells the lower-case word `w` in any mix of ASCII cases.
pub fn spells_word(s: &str, w: &str) -> (r: bool)
    ensures
        r == spells(s@, w@),
{
    let sc = crate::text::chars_of(s);
    let wc = crate::text::chars_of(w);
    if sc.len() != wc.len() {
        return false;
    }
    let mut i: usize = 0;
    while i < sc.len()
        invariant
            sc@ == s@,
            wc@ == w@,
            sc@.len() == wc@.len(),
            i <= sc@.len(),
            forall|k: int| 0 <= k < i ==> same_letter(#[trigger] sc@[k], wc@[k]),
        decreases sc@.len() - i,
    {
        let c = sc[i];
        let d = wc[i];
        if !(c == d || ('a' <= d && d <= 'z' && (c as u32) == (d as u32) - 32)) {
            return false;
        }
        i = i + 1;
    }
    true
}

/// Names of the saturated-steam command.
pub open spec fn is_saturated_steam_word(s: Seq<char>) -> bool {
    spells(s, "saturated-steam"@) || spells(s, "ss"@)
}

/// Which help a help command asks for: `help` alone asks for all of it;
/// `help saturated-steam` (or `help ss`, in any case) for that command's;
/// any other topic is refused and handed back. An empty command asks for none.
pub fn print_help(user_input: Vec<String>) -> (r: Result<Option<HelpTopic>, String>)
    ensures
        user_input@.len() == 0 ==> r == Ok::<Option<HelpTopic>, String>(None),
        user_input@.len() == 1 ==> r == Ok::<Option<HelpTopic>, String>(Some(HelpTopic::Complete)),
        user_input@.len() > 1 && is_saturated_steam_word(user_input@[1]@)
            ==> r == Ok::<Option<HelpTopic>, String>(Some(HelpTopic::SaturatedSteam)),
        user_input@.len() > 1 && !is_saturated_steam_word(user_input@[1]@)
            ==> (r matches Err(topic) && topic@ == user_input@[1]@),
{
    if user_input.len() == 0 {
        return Ok(None);
    }
    if user_input.len() == 1 {
        return Ok(Some(HelpTopic::Complete));
    }
    let help_option = user_input[1].clone();
    proof {
        reveal_strlit("saturated-steam");
        reveal_strlit("ss");
    }
    if spells_word(help_option.as_str(), "saturated-steam") || spells_word(help_option.as_str(), "ss") {
        Ok(Some(HelpTopic::SaturatedSteam))
    } else {
        Err(help_option)
    }
}

/// The text shown when the interactive program ends: none.
pub fn print_outro() -> (r: String)
    ensures
        r@.len() == 0,
{
    String::new()
}

/// The quantity that keys a saturated-properties table.
#[derive(Debug, PartialEq, Eq, Structural)]
pub enum Quantity {
    Temperature,
    Pressure,
}

/// What the interactive program does with a command.
#[derive(Debug, PartialEq, Eq, Structural)]
pub enum Action {
    /// End the session.
    Stop,
    /// Show help, or nothing.
    Help(Option<HelpTopic>),
    /// Query the saturated-properties table keyed by the quantity, at the
    /// value in units.
    Query(Quantity, i64),
    /// Nothing to do; wait for the next command.
    Continue,
}

/// A command that cannot be carried out.
#[derive(Debug)]
pub enum ShellError {
    /// Help was asked on an unknown topic; carries the topic.
    UnRecognizedParameter(String),
    /// The value of a query is not a number; carries it.
    ParseFloatError(String),
    /// A query names no value.
    MissingParameter,
}

/// What a command of the words `w` asks for, with `Err` carrying the text of
/// the offending word.
pub open spec fn command_action(w: Seq<Seq<char>>) -> Result<Action, Option<Seq<char>>> {
    if spells(w[0], "quit"@) {
        Ok(Action::Stop)
    } else if spells(w[0], "help"@) {
        if w.len() == 1 {
            Ok(Action::Help(Some(HelpTopic::Complete)))
        } else if is_saturated_steam_word(w[1]) {
            Ok(Action::Help(Some(HelpTopic::SaturatedSteam)))
        } else {
            Err(Some(w[1]))
        }
    } else if w.len() < 2 {
        if is_saturated_steam_word(w[0]) {
            Ok(Action::Help(Some(HelpTopic::SaturatedSteam)))
        } else {
            Err(Some(w[0]))
        }
    } else if is_saturated_steam_word(w[0]) {
        if w.len() < 3 {
            Err(None)
        } else if field_value(w[2]) is None {
            Err(Some(w[2]))
        } else if spells(w[1], "temperature"@) || spells(w[1], "t"@) {
            Ok(Action::Query(Quantity::Temperature, field_value(w[2])->0 as i64))
        } else if spells(w[1], "pressure"@) || spells(w[1], "p"@) {
            Ok(Action::Query(Quantity::Pressure, field_value(w[2])->0 as i64))
        } else {
            Ok(Action::Continue)
        }
    } else {
        Ok(Action::Continue)
    }
}

/// Decides what a command, split into words, asks for: `quit`; `help` with an
/// optional topic; a lone command word, which asks for its help; or
/// `saturated-steam` (`ss`) with `temperature` (`t`) or `pressure` (`p`) and a
/// value. Words match in any ASCII case. Anything else asks for nothing.
pub fn handle_user_input(user_input: Vec<String>) -> (r: Result<Action, ShellError>)
    requires
        user_input@.len() >= 1,
    ensures
        ({
            let w = user_input@.map_values(|s: String| s@);
            &&& r matches Ok(a) ==> command_action(w) == Ok::<Action, Option<Seq<char>>>(a)
            &&& r matches Err(ShellError::UnRecognizedParameter(s)) ==> command_action(w) == Err::<Action, Option<Seq<char>>>(Some(s@))
                && (spells(w[0], "help"@) || w.len() < 2)
            &&& r matches Err(ShellError::ParseFloatError(s)) ==> command_action(w) == Err::<Action, Option<Seq<char>>>(Some(s@))
                && !spells(w[0], "help"@) && w.len() >= 3
            &&& r matches Err(ShellError::MissingParameter) ==> command_action(w) == Err::<Action, Option<Seq<char>>>(None)
        }),
{
    let ghost w = user_input@.map_values(|s: String| s@);
    assert(w[0] == user_input@[0]@);
    proof {
        reveal_strlit("quit");
        reveal_strlit("help");
        reveal_strlit("saturated-steam");
        reveal_strlit("ss");
        reveal_strlit("temperature");
        reveal_strlit("t");
        reveal_strlit("pressure");
        reveal_strlit("p");
    }
    let first = user_input[0].as_str();
    if spells_word(first, "quit") {
        return Ok(Action::Stop);
    }
    if spells_word(first, "help") {
        if user_input.len() > 1 {
            assert(w[1] == user_input@[1]@);
        }
        return match print_help(user_input) {
            Ok(topic) => Ok(Action::Help(topic)),
            Err(s) => Err(ShellError::UnRecognizedParameter(s)),
        };
    }
    if user_input.len() < 2 {
        if spells_word(first, "saturated-steam") || spells_word(first, "ss") {
            return Ok(Action::Help(Some(HelpTopic::SaturatedSteam)));
        }
        return Err(ShellError::UnRecognizedParameter(user_input[0].clone()));
    }
    if !(spells_word(first, "saturated-steam") || spells_word(first, "ss")) {
        return Ok(Action::Continue);
    }
    if user_input.len() < 3 {
        return Err(ShellError::MissingParameter);
    }
    assert(w[1] == user_input@[1]@);
    assert(w[2] == user_input@[2]@);
    let cs = crate::text::chars_of(user_input[2].as_str());
    let value = match crate::number::parse_field(cs.as_slice()) {
        Some(v) => v,
        None => {
            return Err(ShellError::ParseFloatError(user_input[2].clone()));
        },
    };
    let second = user_input[1].as_str();
    if spells_word(second, "temperature") || spells_word(second, "t") {
        Ok(Action::Query(Quantity::Temperature, value))
    } else if spells_word(second, "pressure") || spells_word(second, "p") {
        Ok(Action::Query(Quantity::Pressure, value))
    } else {
        Ok(Action::Continue)
    }
}

} // verus!
