//! Urgency and other values carried by notification hints.
use vstd::prelude::*;

verus! {

/// A hint value as a D-Bus client may send it (variants unwrapped).
#[derive(Debug)]
pub enum HintValue {
    U8(u8),
    Bool(bool),
    I16(i16),
    U16(u16),
    I32(i32),
    U32(u32),
    I64(i64),
    U64(u64),
    Str(String),
    Other,
}

/// `v` clamped to 0..=2.
pub open spec fn clamp_urgency(v: int) -> u8 {
    if v < 0 {
        0
    } else if v > 2 {
        2
    } else {
        v as u8
    }
}

/// The urgency a hint value gives: an integer clamped to 0..=2 (a byte only capped at 2),
/// else Normal (1).
pub open spec fn urgency_value_spec(v: HintValue) -> u8 {
    match v {
        HintValue::U8(x) => clamp_urgency(x as int),
        HintValue::I16(x) => clamp_urgency(x as int),
        HintValue::U16(x) => clamp_urgency(x as int),
        HintValue::I32(x) => clamp_urgency(x as int),
        HintValue::U32(x) => clamp_urgency(x as int),
        HintValue::I64(x) => clamp_urgency(x as int),
        HintValue::U64(x) => clamp_urgency(x as int),
        _ => 1,
    }
}

/// The urgency a hint value gives; see `urgency_value_spec`.
pub fn parse_urgency_value(val: &HintValue) -> (r: u8)
    ensures
        r == urgency_value_spec(*val),
{
    match val {
        HintValue::U8(v) => if *v > 2 {
            2
        } else {
            *v
        },
        HintValue::I16(v) => if *v < 0 {
            0
        } else if *v > 2 {
            2
        } else {
            *v as u8
        },
        HintValue::U16(v) => if *v > 2 {
            2
        } else {
            *v as u8
        },
        HintValue::I32(v) => if *v < 0 {
            0
        } else if *v > 2 {
            2
        } else {
            *v as u8
        },
        HintValue::U32(v) => if *v > 2 {
            2
        } else {
            *v as u8
        },
        HintValue::I64(v) => if *v < 0 {
            0
        } else if *v > 2 {
            2
        } else {
            *v as u8
        },
        HintValue::U64(v) => if *v > 2 {
            2
        } else {
            *v as u8
        },
        _ => 1,
    }
}

/// The urgency of a notification from its `urgency` hint: Normal (1) when there is none.
pub fn extract_urgency(hint: Option<&HintValue>) -> (r: u8)
    ensures
        r == match hint {
            Some(v) => urgency_value_spec(*v),
            None => 1,
        },
{
    match hint {
        Some(v) => parse_urgency_value(v),
        None => 1,
    }
}

/// A boolean hint: its value when it is a boolean, else false (also when absent).
pub fn hint_flag(hint: Option<&HintValue>) -> (r: bool)
    ensures
        r == match hint {
            Some(HintValue::Bool(b)) => *b,
            _ => false,
        },
{
    match hint {
        Some(HintValue::Bool(b)) => *b,
        _ => false,
    }
}

/// A string hint: its value when it is a string.
pub fn hint_str(hint: Option<&HintValue>) -> (r: Option<String>)
    ensures
        match hint {
            Some(HintValue::Str(s)) => r matches Some(t) && t@ == s@,
            _ => r is None,
        },
{
    match hint {
        Some(HintValue::Str(s)) => Some(s.clone()),
        _ => None,
    }
}

} // verus!
