use vstd::prelude::*;

verus! {

/// Order side (buy / sell).
#[derive(Debug, Clone, Copy, PartialEq, Eq, Hash, Structural)]
pub enum OrderSide {
    Buy,
    Sell,
}

/// Order type.
#[derive(Debug, Clone, Copy, PartialEq, Eq, Hash, Structural)]
pub enum OrderType {
    Market,
    Limit,
    Stop,
    StopLimit,
    TrailingStop,
    TrailingStopLimit,
}

/// Time-in-force policy.
#[derive(Debug, Clone, Copy, PartialEq, Eq, Hash, Structural)]
pub enum OrderTimeInForce {
    /// Good-Till-Cancelled
    Gtc,
    /// Immediate-Or-Cancel
    Ioc,
    /// Fill-Or-Kill
    Fok,
    /// All-Or-None
    Aon,
}

/// Price-level side.
#[derive(Debug, Clone, Copy, PartialEq, Eq, Hash, Structural)]
pub enum LevelType {
    Bid,
    Ask,
}

/// Update notification kind.
#[derive(Debug, Clone, Copy, PartialEq, Eq, Hash, Structural)]
pub enum UpdateType {
    Unchanged,
    Add,
    Update,
    Delete,
}

impl OrderSide {
    /// The display name, as text.
    pub open spec fn name(self) -> Seq<char> {
        match self {
            OrderSide::Buy => "Buy"@,
            OrderSide::Sell => "Sell"@,
        }
    }

    /// The display name.
    pub fn as_str(&self) -> (s: &'static str)
        ensures
            s@ == self.name(),
    {
        match self {
            OrderSide::Buy => "Buy",
            OrderSide::Sell => "Sell",
        }
    }
}

impl OrderType {
    /// The display name, as text.
    pub open spec fn name(self) -> Seq<char> {
        match self {
            OrderType::Market => "Market"@,
            OrderType::Limit => "Limit"@,
            OrderType::Stop => "Stop"@,
            OrderType::StopLimit => "StopLimit"@,
            OrderType::TrailingStop => "TrailingStop"@,
            OrderType::TrailingStopLimit => "TrailingStopLimit"@,
        }
    }

    /// The display name.
    pub fn as_str(&self) -> (s: &'static str)
        ensures
            s@ == self.name(),
    {
        match self {
            OrderType::Market => "Market",
            OrderType::Limit => "Limit",
            OrderType::Stop => "Stop",
            OrderType::StopLimit => "StopLimit",
            OrderType::TrailingStop => "TrailingStop",
            OrderType::TrailingStopLimit => "TrailingStopLimit",
        }
    }
}

impl OrderTimeInForce {
    /// The display name, as text.
    pub open spec fn name(self) -> Seq<char> {
        match self {
            OrderTimeInForce::Gtc => "GTC"@,
            OrderTimeInForce::Ioc => "IOC"@,
            OrderTimeInForce::Fok => "FOK"@,
            OrderTimeInForce::Aon => "AON"@,
        }
    }

    /// The display name.
    pub fn as_str(&self) -> (s: &'static str)
        ensures
            s@ == self.name(),
    {
        match self {
            OrderTimeInForce::Gtc => "GTC",
            OrderTimeInForce::Ioc => "IOC",
            OrderTimeInForce::Fok => "FOK",
            OrderTimeInForce::Aon => "AON",
        }
    }
}

impl LevelType {
    /// The display name, as text.
    pub open spec fn name(self) -> Seq<char> {
        match self {
            LevelType::Bid => "Bid"@,
            LevelType::Ask => "Ask"@,
        }
    }

    /// The display name.
    pub fn as_str(&self) -> (s: &'static str)
        ensures
            s@ == self.name(),
    {
        match self {
            LevelType::Bid => "Bid",
            LevelType::Ask => "Ask",
        }
    }
}

impl UpdateType {
    /// The display name, as text.
    pub open spec fn name(self) -> Seq<char> {
        match self {
            UpdateType::Unchanged => "None"@,
            UpdateType::Add => "Add"@,
            UpdateType::Update => "Update"@,
            UpdateType::Delete => "Delete"@,
        }
    }

    /// The display name.
    pub fn as_str(&self) -> (s: &'static str)
        ensures
            s@ == self.name(),
    {
        match self {
            UpdateType::Unchanged => "None",
            UpdateType::Add => "Add",
            UpdateType::Update => "Update",
            UpdateType::Delete => "Delete",
        }
    }
}

} // verus!
