//! Administrative levels of an answer.

use vstd::prelude::*;

use crate::finder::{
    SUBTYPE_COUNTRY, SUBTYPE_COUNTY, SUBTYPE_DEPENDENCY, SUBTYPE_LOCALITY, SUBTYPE_LOCAL_ADMIN,
    SUBTYPE_MACRO_COUNTY, SUBTYPE_MACRO_REGION, SUBTYPE_REGION,
};

verus! {

/// An administrative level.
#[derive(Clone, Copy, Debug, PartialEq, Eq, Structural)]
pub enum Level {
    Country,
    Region,
    County,
    LocalAdmin,
    Locality,
}

impl Level {
    /// The level's name in answers.
    pub open spec fn text(self) -> Seq<char> {
        match self {
            Level::Country => "country"@,
            Level::Region => "region"@,
            Level::County => "county"@,
            Level::LocalAdmin => "local_admin"@,
            Level::Locality => "locality"@,
        }
    }

    /// The level's name in answers.
    pub fn name(self) -> (r: &'static str)
        ensures
            r@ == self.text(),
    {
        match self {
            Level::Country => "country",
            Level::Region => "region",
            Level::County => "county",
            Level::LocalAdmin => "local_admin",
            Level::Locality => "locality",
        }
    }
}

/// The levels that have been filled.
#[derive(Clone, Copy, Debug, PartialEq, Eq, Structural)]
pub struct LevelSet {
    pub country: bool,
    pub region: bool,
    pub county: bool,
    pub local_admin: bool,
    pub locality: bool,
}

impl Default for LevelSet {
    /// No level is filled.
    fn default() -> (r: Self)
        ensures
            r == LevelSet::none(),
    {
        LevelSet {
            country: false,
            region: false,
            county: false,
            local_admin: false,
            locality: false,
        }
    }
}

impl LevelSet {
    /// No level is filled.
    pub open spec fn none() -> LevelSet {
        LevelSet {
            country: false,
            region: false,
            county: false,
            local_admin: false,
            locality: false,
        }
    }

    /// The level is filled.
    pub open spec fn holds(self, level: Level) -> bool {
        match level {
            Level::Country => self.country,
            Level::Region => self.region,
            Level::County => self.county,
            Level::LocalAdmin => self.local_admin,
            Level::Locality => self.locality,
        }
    }

    /// The same levels and this one.
    pub open spec fn with(self, level: Level) -> LevelSet {
        match level {
            Level::Country => LevelSet { country: true, ..self },
            Level::Region => LevelSet { region: true, ..self },
            Level::County => LevelSet { county: true, ..self },
            Level::LocalAdmin => LevelSet { local_admin: true, ..self },
            Level::Locality => LevelSet { locality: true, ..self },
        }
    }

    /// Every level that the coarse tier can fill is filled.
    pub open spec fn coarse_full(self) -> bool {
        self.country && self.region && self.county
    }

    /// Every level that the fine tier can fill is filled.
    pub open spec fn fine_full(self) -> bool {
        self.county && self.local_admin && self.locality
    }
}

/// The level that a division of the coarse tier fills.
pub open spec fn coarse_level(sub: u8) -> Option<Level> {
    if sub == SUBTYPE_COUNTRY || sub == SUBTYPE_DEPENDENCY {
        Some(Level::Country)
    } else if sub == SUBTYPE_MACRO_REGION || sub == SUBTYPE_REGION {
        Some(Level::Region)
    } else if sub == SUBTYPE_MACRO_COUNTY {
        Some(Level::County)
    } else {
        None
    }
}

/// The level that a division of the fine tier fills.
pub open spec fn fine_level(sub: u8) -> Option<Level> {
    if sub == SUBTYPE_COUNTY {
        Some(Level::County)
    } else if sub == SUBTYPE_LOCAL_ADMIN {
        Some(Level::LocalAdmin)
    } else if sub == SUBTYPE_LOCALITY {
        Some(Level::Locality)
    } else {
        None
    }
}

/// The level, unless it is filled already.
pub open spec fn unfilled(level: Option<Level>, done: LevelSet) -> Option<Level> {
    match level {
        Some(l) => if done.holds(l) {
            None
        } else {
            Some(l)
        },
        None => None,
    }
}

/// The levels filled once `level`, if any, is filled too.
pub open spec fn filled(level: Option<Level>, done: LevelSet) -> LevelSet {
    match level {
        Some(l) => done.with(l),
        None => done,
    }
}

/// The level that a division of the coarse tier fills, where it is not filled
/// yet; it then is.
pub fn coarse_level_for(sub: u8, done: &mut LevelSet) -> (r: Option<Level>)
    ensures
        r == unfilled(coarse_level(sub), *old(done)),
        *final(done) == filled(r, *old(done)),
{
    if (sub == SUBTYPE_COUNTRY || sub == SUBTYPE_DEPENDENCY) && !done.country {
        done.country = true;
        Some(Level::Country)
    } else if (sub == SUBTYPE_MACRO_REGION || sub == SUBTYPE_REGION) && !done.region {
        done.region = true;
        Some(Level::Region)
    } else if sub == SUBTYPE_MACRO_COUNTY && !done.county {
        done.county = true;
        Some(Level::County)
    } else {
        None
    }
}

/// The level that a division of the fine tier fills, where it is not filled
/// yet; it then is.
pub fn fine_level_for(sub: u8, done: &mut LevelSet) -> (r: Option<Level>)
    ensures
        r == unfilled(fine_level(sub), *old(done)),
        *final(done) == filled(r, *old(done)),
{
    if sub == SUBTYPE_COUNTY && !done.county {
        done.county = true;
        Some(Level::County)
    } else if sub == SUBTYPE_LOCAL_ADMIN && !done.local_admin {
        done.local_admin = true;
        Some(Level::LocalAdmin)
    } else if sub == SUBTYPE_LOCALITY && !done.locality {
        done.locality = true;
        Some(Level::Locality)
    } else {
        None
    }
}

} // verus!
