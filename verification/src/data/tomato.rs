//! The tomato.gg tank performance format.

use vstd::prelude::*;

verus! {

/// The nation of a tank.
#[derive(Debug, Clone, Copy, PartialEq, Eq)]
pub enum Nation {
    USA,
    UK,
    USSR,
    France,
    Germany,
    Italy,
    China,
    Czech,
    Poland,
    Sweden,
    Japan,
}

/// The class of a tank as the format names it (`LT`, `MT`, `HT`, `TD`, `SPG`).
#[derive(Debug, Clone, Copy, PartialEq, Eq)]
pub enum TankClass {
    Light,
    Medium,
    Heavy,
    Destroyer,
    Clicker,
}

impl TankClass {
    /// The class of the registry that this class of the format stands for.
    pub fn to_tank_class(self) -> (r: crate::tank::TankClass)
        ensures
            r == match self {
                TankClass::Light => crate::tank::TankClass::Light,
                TankClass::Medium => crate::tank::TankClass::Medium,
                TankClass::Heavy => crate::tank::TankClass::Heavy,
                TankClass::Destroyer => crate::tank::TankClass::Destroyer,
                TankClass::Clicker => crate::tank::TankClass::Clicker,
            },
    {
        match self {
            TankClass::Light => crate::tank::TankClass::Light,
            TankClass::Medium => crate::tank::TankClass::Medium,
            TankClass::Heavy => crate::tank::TankClass::Heavy,
            TankClass::Destroyer => crate::tank::TankClass::Destroyer,
            TankClass::Clicker => crate::tank::TankClass::Clicker,
        }
    }
}

} // verus!
