use vstd::prelude::*;

use crate::decimal::{fits, Decimal, WideDecimal, ONE};

verus! {

/// Last trade and session range of one symbol.
#[derive(Debug, Clone)]
pub struct Ticker {
    pub symbol: String,
    pub last_price: Decimal,
    pub volume: Decimal,
    pub high: Decimal,
    pub low: Decimal,
    pub open: Decimal,
    /// Microseconds since the Unix epoch.
    pub timestamp: i64,
}

/// Top of book of one symbol.
#[derive(Debug, Clone)]
pub struct Quote {
    pub symbol: String,
    pub bid_price: Decimal,
    pub bid_size: Decimal,
    pub ask_price: Decimal,
    pub ask_size: Decimal,
    /// Microseconds since the Unix epoch.
    pub timestamp: i64,
}

impl Quote {
    /// `ask - bid`.
    pub fn spread(&self) -> (r: Decimal)
        requires
            fits(self.ask_price.units - self.bid_price.units),
        ensures
            r.units == self.ask_price.units - self.bid_price.units,
    {
        self.ask_price.sub(self.bid_price)
    }

    /// `(bid + ask) / 2`, exactly.
    pub fn mid_price(&self) -> (r: WideDecimal)
        requires
            self.bid_price.wf(),
            self.ask_price.wf(),
        ensures
            2 * r.units == (self.bid_price.units + self.ask_price.units) * ONE,
    {
        self.bid_price.mean(self.ask_price)
    }
}

/// A ticker, a quote, both or neither.
#[derive(Debug, Clone)]
pub struct MarketData {
    pub ticker: Option<Ticker>,
    pub quote: Option<Quote>,
}

impl MarketData {
    /// Neither a ticker nor a quote.
    pub fn new() -> (r: MarketData)
        ensures
            r.ticker is None,
            r.quote is None,
    {
        MarketData { ticker: None, quote: None }
    }

    /// Just `ticker`.
    pub fn with_ticker(ticker: Ticker) -> (r: MarketData)
        ensures
            r.ticker == Some(ticker),
            r.quote is None,
    {
        MarketData { ticker: Some(ticker), quote: None }
    }

    /// Just `quote`.
    pub fn with_quote(quote: Quote) -> (r: MarketData)
        ensures
            r.ticker is None,
            r.quote == Some(quote),
    {
        MarketData { ticker: None, quote: Some(quote) }
    }
}

impl Default for MarketData {
    fn default() -> (r: MarketData)
        ensures
            r.ticker is None,
            r.quote is None,
    {
        MarketData::new()
    }
}

} // verus!
