//! Errors and enumerations of the triggers format.

use vstd::prelude::*;

use crate::formats::{ReadError, WriteError};

verus! {

/// Errors of the triggers format.
#[derive(Debug)]
pub enum WtgError {
    /// Unknown parameter kind at a byte position.
    ParameterConversionError { position: u64, kind: i32 },
    SubParameterConversionError(u32),
    ECAConversionError(u32),
    ConditionConversionError(u32),
    UnknownProp(String),
    UnknownSubProp(String),
    UnknownGameVersion(u32),
    ErrorReader(ReadError),
    ErrorWriter(WriteError),
}

/// Kind of a trigger parameter.
#[derive(PartialOrd, PartialEq, Eq, Structural, Copy, Clone, Debug)]
pub enum ParameterType {
    Preset,
    Variable,
    Function,
    String,
    Invalid,
}

impl ParameterType {
    /// The parameter kind of code `n` (0 to 3, or -1 for invalid); `bin_pos`
    /// locates the code in the file for the error.
    pub fn from(n: i32, bin_pos: u64) -> (res: Result<ParameterType, WtgError>)
        ensures
            n == 0 ==> res == Ok::<ParameterType, WtgError>(ParameterType::Preset),
            n == 1 ==> res == Ok::<ParameterType, WtgError>(ParameterType::Variable),
            n == 2 ==> res == Ok::<ParameterType, WtgError>(ParameterType::Function),
            n == 3 ==> res == Ok::<ParameterType, WtgError>(ParameterType::String),
            n == -1 ==> res == Ok::<ParameterType, WtgError>(ParameterType::Invalid),
            !(-1 <= n <= 3) ==> res == Err::<ParameterType, WtgError>(
                WtgError::ParameterConversionError { position: bin_pos, kind: n },
            ),
    {
        match n {
            0 => Ok(ParameterType::Preset),
            1 => Ok(ParameterType::Variable),
            2 => Ok(ParameterType::Function),
            3 => Ok(ParameterType::String),
            -1 => Ok(ParameterType::Invalid),
            _ => Err(WtgError::ParameterConversionError { position: bin_pos, kind: n }),
        }
    }
}

/// Event, condition or action.
#[derive(Clone, Copy, Debug, PartialEq, Eq, Structural, PartialOrd)]
pub enum ECAType {
    Event,
    Condition,
    Action,
}

/// Section of the trigger data that describes a kind of function.
pub open spec fn eca_sector(t: ECAType) -> Seq<char> {
    match t {
        ECAType::Event => "TriggerEvents"@,
        ECAType::Condition => "TriggerConditions"@,
        ECAType::Action => "TriggerActions"@,
    }
}

impl ECAType {
    /// The function kind of code `n` (0 to 2).
    pub fn from(n: u32) -> (res: Result<ECAType, WtgError>)
        ensures
            n == 0 ==> res == Ok::<ECAType, WtgError>(ECAType::Event),
            n == 1 ==> res == Ok::<ECAType, WtgError>(ECAType::Condition),
            n == 2 ==> res == Ok::<ECAType, WtgError>(ECAType::Action),
            n > 2 ==> res == Err::<ECAType, WtgError>(WtgError::ECAConversionError(n)),
    {
        match n {
            0 => Ok(ECAType::Event),
            1 => Ok(ECAType::Condition),
            2 => Ok(ECAType::Action),
            _ => Err(WtgError::ECAConversionError(n)),
        }
    }

    /// The trigger data section that describes this kind of function.
    pub fn get_sector(&self) -> (res: &str)
        ensures
            res@ == eca_sector(*self),
    {
        match self {
            ECAType::Event => "TriggerEvents",
            ECAType::Condition => "TriggerConditions",
            ECAType::Action => "TriggerActions",
        }
    }
}

/// Kind of a function call inside a parameter.
#[derive(Clone, Copy, Debug, PartialEq, Eq, Structural, PartialOrd)]
pub enum SubParameterType {
    Event,
    Condition,
    Action,
    Call,
}

/// Section of the trigger data that describes a kind of sub-parameter.
pub open spec fn sub_parameter_sector(t: SubParameterType) -> Seq<char> {
    match t {
        SubParameterType::Event => "TriggerEvents"@,
        SubParameterType::Condition => "TriggerConditions"@,
        SubParameterType::Action => "TriggerActions"@,
        SubParameterType::Call => "TriggerCalls"@,
    }
}

impl SubParameterType {
    /// The sub-parameter kind of code `n` (0 to 3).
    pub fn from(n: u32) -> (res: Result<SubParameterType, WtgError>)
        ensures
            n == 0 ==> res == Ok::<SubParameterType, WtgError>(SubParameterType::Event),
            n == 1 ==> res == Ok::<SubParameterType, WtgError>(SubParameterType::Condition),
            n == 2 ==> res == Ok::<SubParameterType, WtgError>(SubParameterType::Action),
            n == 3 ==> res == Ok::<SubParameterType, WtgError>(SubParameterType::Call),
            n > 3 ==> res == Err::<SubParameterType, WtgError>(WtgError::SubParameterConversionError(n)),
    {
        match n {
            0 => Ok(SubParameterType::Event),
            1 => Ok(SubParameterType::Condition),
            2 => Ok(SubParameterType::Action),
            3 => Ok(SubParameterType::Call),
            _ => Err(WtgError::SubParameterConversionError(n)),
        }
    }

    /// The trigger data section that describes this kind of sub-parameter.
    pub fn get_sector(&self) -> (res: &str)
        ensures
            res@ == sub_parameter_sector(*self),
    {
        match self {
            SubParameterType::Event => "TriggerEvents",
            SubParameterType::Condition => "TriggerConditions",
            SubParameterType::Action => "TriggerActions",
            SubParameterType::Call => "TriggerCalls",
        }
    }
}

/// Branch of an if-then-else action.
#[derive(Clone, Copy, Debug, PartialEq, Eq, Structural, PartialOrd)]
pub enum ConditionType {
    Condition,
    Then,
    Else,
}

impl ConditionType {
    /// The branch of code `n` (0 to 2).
    pub fn from(n: u32) -> (res: Result<Self, WtgError>)
        ensures
            n == 0 ==> res == Ok::<ConditionType, WtgError>(ConditionType::Condition),
            n == 1 ==> res == Ok::<ConditionType, WtgError>(ConditionType::Then),
            n == 2 ==> res == Ok::<ConditionType, WtgError>(ConditionType::Else),
            n > 2 ==> res == Err::<ConditionType, WtgError>(WtgError::ConditionConversionError(n)),
    {
        match n {
            0 => Ok(ConditionType::Condition),
            1 => Ok(ConditionType::Then),
            2 => Ok(ConditionType::Else),
            _ => Err(WtgError::ConditionConversionError(n)),
        }
    }
}

} // verus!
