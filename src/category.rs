use vstd::prelude::*;

verus! {

/// Number of satoshis in one whole coin.
pub const SATS_PER_BTC: u64 = 100_000_000;

/// Coarse tiers of holding size, ordered from smallest to largest.
#[derive(Debug, Clone, Copy, PartialEq, Eq, Structural)]
pub enum WealthCategory {
    Dust,
    Shrimp,
    Crab,
    Fish,
    Dolphin,
    Shark,
    Whale,
    Humpback,
}

/// Exclusive upper bounds of the tiers below `Humpback`, in satoshis:
/// 0.001, 0.01, 0.1, 1, 10, 100 and 1000 coins.
pub open spec fn tier_bound(i: int) -> int {
    if i == 0 {
        100_000
    } else if i == 1 {
        1_000_000
    } else if i == 2 {
        10_000_000
    } else if i == 3 {
        100_000_000
    } else if i == 4 {
        1_000_000_000
    } else if i == 5 {
        10_000_000_000
    } else {
        100_000_000_000
    }
}

/// The tier of an amount: the first whose exclusive upper bound lies above it.
pub open spec fn category_of(sats: int) -> WealthCategory {
    if sats < tier_bound(0) {
        WealthCategory::Dust
    } else if sats < tier_bound(1) {
        WealthCategory::Shrimp
    } else if sats < tier_bound(2) {
        WealthCategory::Crab
    } else if sats < tier_bound(3) {
        WealthCategory::Fish
    } else if sats < tier_bound(4) {
        WealthCategory::Dolphin
    } else if sats < tier_bound(5) {
        WealthCategory::Shark
    } else if sats < tier_bound(6) {
        WealthCategory::Whale
    } else {
        WealthCategory::Humpback
    }
}

/// Position of a tier in the order Dust < Shrimp < ... < Humpback.
pub open spec fn tier_index(c: WealthCategory) -> int {
    match c {
        WealthCategory::Dust => 0,
        WealthCategory::Shrimp => 1,
        WealthCategory::Crab => 2,
        WealthCategory::Fish => 3,
        WealthCategory::Dolphin => 4,
        WealthCategory::Shark => 5,
        WealthCategory::Whale => 6,
        WealthCategory::Humpback => 7,
    }
}

/// A larger holding never falls in a lower tier.
pub proof fn lemma_category_monotone(a: int, b: int)
    requires
        a <= b,
    ensures
        tier_index(category_of(a)) <= tier_index(category_of(b)),
{
}

/// The name of a tier.
pub open spec fn category_name(c: WealthCategory) -> Seq<char> {
    match c {
        WealthCategory::Dust => "Dust"@,
        WealthCategory::Shrimp => "Shrimp"@,
        WealthCategory::Crab => "Crab"@,
        WealthCategory::Fish => "Fish"@,
        WealthCategory::Dolphin => "Dolphin"@,
        WealthCategory::Shark => "Shark"@,
        WealthCategory::Whale => "Whale"@,
        WealthCategory::Humpback => "Humpback"@,
    }
}

/// The pictogram of a tier.
pub open spec fn category_emoji(c: WealthCategory) -> Seq<char> {
    match c {
        WealthCategory::Dust => "\u{1F7EB}"@,
        WealthCategory::Shrimp => "\u{1F990}"@,
        WealthCategory::Crab => "\u{1F980}"@,
        WealthCategory::Fish => "\u{1F41F}"@,
        WealthCategory::Dolphin => "\u{1F42C}"@,
        WealthCategory::Shark => "\u{1F988}"@,
        WealthCategory::Whale => "\u{1F40B}"@,
        WealthCategory::Humpback => "\u{1F433}"@,
    }
}

/// The one-line description of a tier.
pub open spec fn category_description(c: WealthCategory) -> Seq<char> {
    match c {
        WealthCategory::Dust => "Minimal Bitcoin holdings - every satoshi counts!"@,
        WealthCategory::Shrimp => "Small but steady - you're building your Bitcoin stack!"@,
        WealthCategory::Crab => "Solid foundation - you're moving sideways and up!"@,
        WealthCategory::Fish => "Swimming with purpose - great Bitcoin accumulation!"@,
        WealthCategory::Dolphin => "Intelligent holder - significant Bitcoin wealth!"@,
        WealthCategory::Shark => "Apex Bitcoin holder - you're in the elite tier!"@,
        WealthCategory::Whale => "Bitcoin whale - massive holdings that move markets!"@,
        WealthCategory::Humpback => "Ultimate Bitcoin titan - legendary wealth status!"@,
    }
}

/// The bounds of a tier written out in coins.
pub open spec fn category_range_label(c: WealthCategory) -> Seq<char> {
    match c {
        WealthCategory::Dust => "< 0.001 BTC"@,
        WealthCategory::Shrimp => "0.001 - 0.01 BTC"@,
        WealthCategory::Crab => "0.01 - 0.1 BTC"@,
        WealthCategory::Fish => "0.1 - 1 BTC"@,
        WealthCategory::Dolphin => "1 - 10 BTC"@,
        WealthCategory::Shark => "10 - 100 BTC"@,
        WealthCategory::Whale => "100 - 1000 BTC"@,
        WealthCategory::Humpback => "1000+ BTC"@,
    }
}

/// The style class of a tier.
pub open spec fn category_color(c: WealthCategory) -> Seq<char> {
    match c {
        WealthCategory::Dust => "text-gray-500"@,
        WealthCategory::Shrimp => "text-blue-500"@,
        WealthCategory::Crab => "text-green-500"@,
        WealthCategory::Fish => "text-yellow-500"@,
        WealthCategory::Dolphin => "text-orange-500"@,
        WealthCategory::Shark => "text-orange-500"@,
        WealthCategory::Whale => "text-orange-500"@,
        WealthCategory::Humpback => "text-red-500"@,
    }
}

impl WealthCategory {
    /// Classifies a holding given in satoshis.
    pub fn from_btc_amount(sats: u64) -> (r: WealthCategory)
        ensures
            r == category_of(sats as int),
    {
        if sats < 100_000 {
            WealthCategory::Dust
        } else if sats < 1_000_000 {
            WealthCategory::Shrimp
        } else if sats < 10_000_000 {
            WealthCategory::Crab
        } else if sats < 100_000_000 {
            WealthCategory::Fish
        } else if sats < 1_000_000_000 {
            WealthCategory::Dolphin
        } else if sats < 10_000_000_000 {
            WealthCategory::Shark
        } else if sats < 100_000_000_000 {
            WealthCategory::Whale
        } else {
            WealthCategory::Humpback
        }
    }

    /// The tier's name.
    pub fn as_str(&self) -> (r: &'static str)
        ensures
            r@ == category_name(*self),
    {
        match self {
            WealthCategory::Dust => "Dust",
            WealthCategory::Shrimp => "Shrimp",
            WealthCategory::Crab => "Crab",
            WealthCategory::Fish => "Fish",
            WealthCategory::Dolphin => "Dolphin",
            WealthCategory::Shark => "Shark",
            WealthCategory::Whale => "Whale",
            WealthCategory::Humpback => "Humpback",
        }
    }

    /// A pictogram for the tier.
    pub fn emoji(&self) -> (r: &'static str)
        ensures
            r@ == category_emoji(*self),
    {
        match self {
            WealthCategory::Dust => "\u{1F7EB}",
            WealthCategory::Shrimp => "\u{1F990}",
            WealthCategory::Crab => "\u{1F980}",
            WealthCategory::Fish => "\u{1F41F}",
            WealthCategory::Dolphin => "\u{1F42C}",
            WealthCategory::Shark => "\u{1F988}",
            WealthCategory::Whale => "\u{1F40B}",
            WealthCategory::Humpback => "\u{1F433}",
        }
    }

    /// A one-line description of the tier.
    pub fn description(&self) -> (r: &'static str)
        ensures
            r@ == category_description(*self),
    {
        match self {
            WealthCategory::Dust => "Minimal Bitcoin holdings - every satoshi counts!",
            WealthCategory::Shrimp => "Small but steady - you're building your Bitcoin stack!",
            WealthCategory::Crab => "Solid foundation - you're moving sideways and up!",
            WealthCategory::Fish => "Swimming with purpose - great Bitcoin accumulation!",
            WealthCategory::Dolphin => "Intelligent holder - significant Bitcoin wealth!",
            WealthCategory::Shark => "Apex Bitcoin holder - you're in the elite tier!",
            WealthCategory::Whale => "Bitcoin whale - massive holdings that move markets!",
            WealthCategory::Humpback => "Ultimate Bitcoin titan - legendary wealth status!",
        }
    }

    /// The tier's bounds written out in coins.
    pub fn btc_range(&self) -> (r: &'static str)
        ensures
            r@ == category_range_label(*self),
    {
        match self {
            WealthCategory::Dust => "< 0.001 BTC",
            WealthCategory::Shrimp => "0.001 - 0.01 BTC",
            WealthCategory::Crab => "0.01 - 0.1 BTC",
            WealthCategory::Fish => "0.1 - 1 BTC",
            WealthCategory::Dolphin => "1 - 10 BTC",
            WealthCategory::Shark => "10 - 100 BTC",
            WealthCategory::Whale => "100 - 1000 BTC",
            WealthCategory::Humpback => "1000+ BTC",
        }
    }

    /// The style class used to colour the tier.
    pub fn color_class(&self) -> (r: &'static str)
        ensures
            r@ == category_color(*self),
    {
        match self {
            WealthCategory::Dust => "text-gray-500",
            WealthCategory::Shrimp => "text-blue-500",
            WealthCategory::Crab => "text-green-500",
            WealthCategory::Fish => "text-yellow-500",
            WealthCategory::Dolphin => "text-orange-500",
            WealthCategory::Shark => "text-orange-500",
            WealthCategory::Whale => "text-orange-500",
            WealthCategory::Humpback => "text-red-500",
        }
    }
}

} // verus!
