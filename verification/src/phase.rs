//! The phases of a rescue session and their single-character encoding.

use vstd::prelude::*;

use crate::map_file::SectorState;
use crate::parse_error::ParseError;

verus! {

/// One stage of the rescue schedule. The scheduled phases run in the order
/// `Copying`, `Trimming`, `Scraping`, `Retrying`, `Finished`; each non-final
/// one targets exactly one sector state. `Filling` and `Generating` are
/// recognised nowhere in the map file format and are never scheduled.
#[derive(Clone, Copy, Debug, PartialEq, Eq, Hash, Structural)]
pub enum Phase {
    Copying,
    Trimming,
    Scraping,
    Retrying,
    Filling,
    Generating,
    Finished,
}

impl Phase {
    /// The character that stands for this phase in a map file status line.
    pub open spec fn spec_char(self) -> char {
        match self {
            Phase::Copying => '?',
            Phase::Trimming => '*',
            Phase::Scraping => '/',
            Phase::Retrying => '-',
            Phase::Filling => 'F',
            Phase::Generating => 'G',
            Phase::Finished => '+',
        }
    }

    /// The phase a status line character denotes, if any. Only the five
    /// scheduled phases can be read back from a map file.
    pub open spec fn spec_from_char(c: char) -> Option<Phase> {
        match c {
            '?' => Some(Phase::Copying),
            '*' => Some(Phase::Trimming),
            '/' => Some(Phase::Scraping),
            '-' => Some(Phase::Retrying),
            '+' => Some(Phase::Finished),
            _ => None,
        }
    }

    pub fn from_char(c: char) -> (r: Result<Phase, ParseError>)
        ensures
            match r {
                Ok(p) => Self::spec_from_char(c) == Some(p),
                Err(e) => Self::spec_from_char(c) is None && e@ == "phase"@,
            },
    {
        match c {
            '?' => Ok(Phase::Copying),
            '*' => Ok(Phase::Trimming),
            '/' => Ok(Phase::Scraping),
            '-' => Ok(Phase::Retrying),
            '+' => Ok(Phase::Finished),
            _ => Err(ParseError::new("phase")),
        }
    }

    pub fn as_char(&self) -> (c: char)
        ensures
            c == self.spec_char(),
    {
        match self {
            Phase::Copying => '?',
            Phase::Trimming => '*',
            Phase::Scraping => '/',
            Phase::Retrying => '-',
            Phase::Filling => 'F',
            Phase::Generating => 'G',
            Phase::Finished => '+',
        }
    }

    /// The status line byte for this phase, the ASCII code of its
    /// character.
    pub open spec fn spec_byte(self) -> u8 {
        match self {
            Phase::Copying => 0x3F,
            Phase::Trimming => 0x2A,
            Phase::Scraping => 0x2F,
            Phase::Retrying => 0x2D,
            Phase::Filling => 0x46,
            Phase::Generating => 0x47,
            Phase::Finished => 0x2B,
        }
    }

    /// The phase a status line byte denotes, if any.
    pub open spec fn spec_from_byte(b: u8) -> Option<Phase> {
        match b {
            0x3F => Some(Phase::Copying),
            0x2A => Some(Phase::Trimming),
            0x2F => Some(Phase::Scraping),
            0x2D => Some(Phase::Retrying),
            0x2B => Some(Phase::Finished),
            _ => None,
        }
    }

    /// Whether reading the phase's own byte back yields the phase: true of
    /// every phase the schedule runs, false of `Filling` and `Generating`,
    /// which no map file can record.
    pub open spec fn persistable(self) -> bool {
        Self::spec_from_byte(self.spec_byte()) == Some(self)
    }

    pub fn as_byte(&self) -> (b: u8)
        ensures
            b == self.spec_byte(),
    {
        match self {
            Phase::Copying => 0x3F,
            Phase::Trimming => 0x2A,
            Phase::Scraping => 0x2F,
            Phase::Retrying => 0x2D,
            Phase::Filling => 0x46,
            Phase::Generating => 0x47,
            Phase::Finished => 0x2B,
        }
    }

    pub fn from_byte(b: u8) -> (r: Option<Phase>)
        ensures
            r == Self::spec_from_byte(b),
    {
        match b {
            0x3F => Some(Phase::Copying),
            0x2A => Some(Phase::Trimming),
            0x2F => Some(Phase::Scraping),
            0x2D => Some(Phase::Retrying),
            0x2B => Some(Phase::Finished),
            _ => None,
        }
    }

    /// The scheduled phases, in the order a session advances through them.
    pub fn values() -> (v: Vec<Phase>)
        ensures
            v@ == seq![
                Phase::Copying,
                Phase::Trimming,
                Phase::Scraping,
                Phase::Retrying,
                Phase::Finished,
            ],
    {
        let mut v: Vec<Phase> = Vec::new();
        v.push(Phase::Copying);
        v.push(Phase::Trimming);
        v.push(Phase::Scraping);
        v.push(Phase::Retrying);
        v.push(Phase::Finished);
        proof {
            assert(v@ =~= seq![
                Phase::Copying,
                Phase::Trimming,
                Phase::Scraping,
                Phase::Retrying,
                Phase::Finished,
            ]);
        }
        v
    }

    /// The phase that follows this one in the schedule, `None` at the end.
    pub open spec fn spec_next(self) -> Option<Phase> {
        match self {
            Phase::Copying => Some(Phase::Trimming),
            Phase::Trimming => Some(Phase::Scraping),
            Phase::Scraping => Some(Phase::Retrying),
            Phase::Retrying => Some(Phase::Finished),
            Phase::Filling => None,
            Phase::Generating => None,
            Phase::Finished => None,
        }
    }

    pub fn next(&self) -> (r: Option<Phase>)
        ensures
            r == self.spec_next(),
    {
        match self {
            Phase::Copying => Some(Phase::Trimming),
            Phase::Trimming => Some(Phase::Scraping),
            Phase::Scraping => Some(Phase::Retrying),
            Phase::Retrying => Some(Phase::Finished),
            Phase::Filling => None,
            Phase::Generating => None,
            Phase::Finished => None,
        }
    }

    /// The sector state a pass of this phase tries to read, `None` when the
    /// phase schedules no work.
    pub open spec fn spec_target(self) -> Option<SectorState> {
        match self {
            Phase::Copying => Some(SectorState::Untried),
            Phase::Trimming => Some(SectorState::Untrimmed),
            Phase::Scraping => Some(SectorState::Unscraped),
            Phase::Retrying => Some(SectorState::Bad),
            Phase::Filling => None,
            Phase::Generating => None,
            Phase::Finished => None,
        }
    }

    pub fn target_sectors(&self) -> (r: Option<SectorState>)
        ensures
            r == self.spec_target(),
    {
        match self {
            Phase::Copying => Some(SectorState::Untried),
            Phase::Trimming => Some(SectorState::Untrimmed),
            Phase::Scraping => Some(SectorState::Unscraped),
            Phase::Retrying => Some(SectorState::Bad),
            Phase::Filling => None,
            Phase::Generating => None,
            Phase::Finished => None,
        }
    }

    /// The phase's name as displayed in status output.
    pub open spec fn spec_name(self) -> Seq<char> {
        match self {
            Phase::Copying => "Copying"@,
            Phase::Trimming => "Trimming"@,
            Phase::Scraping => "Scraping"@,
            Phase::Retrying => "Retrying"@,
            Phase::Filling => "Filling"@,
            Phase::Generating => "Generating"@,
            Phase::Finished => "Finished"@,
        }
    }

    pub fn name(&self) -> (n: String)
        ensures
            n@ == self.spec_name(),
    {
        match self {
            Phase::Copying => String::from_str("Copying"),
            Phase::Trimming => String::from_str("Trimming"),
            Phase::Scraping => String::from_str("Scraping"),
            Phase::Retrying => String::from_str("Retrying"),
            Phase::Filling => String::from_str("Filling"),
            Phase::Generating => String::from_str("Generating"),
            Phase::Finished => String::from_str("Finished"),
        }
    }
}

} // verus!
