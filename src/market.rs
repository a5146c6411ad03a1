//! Static trading parameters of each market, and the registry that holds them.
use vstd::prelude::*;
use vstd::string::StrSliceExecFns;
use crate::error::EngineError;

verus! {

/// A market's trading parameters. Prices are counted in ticks of
/// `10^-price_precision` quote units and quantities in steps of
/// `10^-quantity_precision` base units; the quote asset's ledger amounts are
/// counted in units of one tick times one step.
pub struct MarketConfig {
    /// The market's ticker, such as `BTC-USD`.
    pub symbol: String,
    pub base_asset: String,
    pub quote_asset: String,
    pub price_precision: u32,
    pub quantity_precision: u32,
    pub min_price: u64,
    pub max_price: u64,
    pub min_order_size: u64,
    pub max_order_size: u64,
}

impl MarketConfig {
    pub fn copy(&self) -> (r: MarketConfig)
        ensures
            r == *self,
    {
        MarketConfig {
            symbol: self.symbol.clone(),
            base_asset: self.base_asset.clone(),
            quote_asset: self.quote_asset.clone(),
            price_precision: self.price_precision,
            quantity_precision: self.quantity_precision,
            min_price: self.min_price,
            max_price: self.max_price,
            min_order_size: self.min_order_size,
            max_order_size: self.max_order_size,
        }
    }
}

/// `price` and `quantity` lie within the market's bounds; both are positive.
pub open spec fn order_fits(c: MarketConfig, price: u64, quantity: u64) -> bool {
    &&& 0 < price
    &&& c.min_price <= price <= c.max_price
    &&& 0 < quantity
    &&& c.min_order_size <= quantity <= c.max_order_size
}

/// Checks `price` and `quantity` against the market's bounds.
pub fn fits_market(c: &MarketConfig, price: u64, quantity: u64) -> (r: bool)
    ensures
        r == order_fits(*c, price, quantity),
{
    0 < price && c.min_price <= price && price <= c.max_price && 0 < quantity && c.min_order_size <= quantity
        && quantity <= c.max_order_size
}

/// A character allowed in an asset symbol: an ASCII capital letter or digit.
pub open spec fn symbol_char(c: char) -> bool {
    ('A' <= c && c <= 'Z') || ('0' <= c && c <= '9')
}

/// `s` is `BASE-QUOTE`: two symbols of 3 to 10 capital letters or digits
/// joined by one dash.
pub open spec fn ticker_format(s: Seq<char>) -> bool {
    exists|k: int| {
        &&& 3 <= k <= 10
        &&& 3 <= s.len() - k - 1 <= 10
        &&& #[trigger] s[k] == '-'
        &&& forall|i: int| 0 <= i < s.len() && i != k ==> symbol_char(s[i])
    }
}

/// Whether `market` has the form `BASE-QUOTE`, each symbol 3 to 10 ASCII
/// capital letters or digits.
pub fn validate_market_format(market: &str) -> (r: bool)
    ensures
        r == ticker_format(market@),
{
    let n = market.unicode_len();
    let mut dash: usize = n;
    let mut i: usize = 0;
    while i < n
        invariant
            i <= n,
            n == market@.len(),
            dash == n || (dash < i && market@[dash as int] == '-'),
            forall|j: int| 0 <= j < i && j != dash ==> symbol_char(#[trigger] market@[j]),
        decreases n - i,
    {
        let c = market.get_char(i);
        if c == '-' {
            if dash < n {
                proof {
                    assert forall|k: int| 3 <= k <= 10 && 3 <= market@.len() - k - 1 <= 10 && #[trigger] market@[k] == '-'
                        implies !(forall|j: int| 0 <= j < market@.len() && j != k ==> symbol_char(market@[j])) by {
                        if k != dash as int {
                            assert(!symbol_char(market@[dash as int]));
                        } else {
                            assert(!symbol_char(market@[i as int]));
                        }
                    }
                }
                return false;
            }
            dash = i;
        } else if !(('A' <= c && c <= 'Z') || ('0' <= c && c <= '9')) {
            proof {
                assert forall|k: int| 3 <= k <= 10 && 3 <= market@.len() - k - 1 <= 10 && #[trigger] market@[k] == '-'
                    implies !(forall|j: int| 0 <= j < market@.len() && j != k ==> symbol_char(market@[j])) by {
                    assert(k != i as int);
                }
            }
            return false;
        }
        i = i + 1;
    }
    if dash == n {
        proof {
            assert forall|k: int| 3 <= k <= 10 && 3 <= market@.len() - k - 1 <= 10 && #[trigger] market@[k] == '-'
                implies !(forall|j: int| 0 <= j < market@.len() && j != k ==> symbol_char(market@[j])) by {
                assert(!symbol_char(market@[k]));
            }
        }
        return false;
    }
    let ok = 3 <= dash && dash <= 10 && 3 <= n - dash - 1 && n - dash - 1 <= 10;
    proof {
        if ok {
            assert(market@[dash as int] == '-');
        } else {
            assert forall|k: int| 3 <= k <= 10 && 3 <= market@.len() - k - 1 <= 10 && #[trigger] market@[k] == '-'
                implies !(forall|j: int| 0 <= j < market@.len() && j != k ==> symbol_char(market@[j])) by {
                assert(k != dash as int);
                assert(!symbol_char(market@[dash as int]));
            }
        }
    }
    ok
}

/// The registry of market parameters, in the order they were loaded.
pub struct OrderValidator {
    pub markets: Vec<MarketConfig>,
}

impl OrderValidator {
    /// Market `m` resolves to entry `i`: the first with that ticker.
    pub open spec fn market_at(&self, m: Seq<char>, i: int) -> bool {
        &&& 0 <= i < self.markets@.len()
        &&& self.markets@[i].symbol@ == m
        &&& forall|j: int| 0 <= j < i ==> (#[trigger] self.markets@[j]).symbol@ != m
    }

    pub open spec fn knows(&self, m: Seq<char>) -> bool {
        exists|i: int| 0 <= i < self.markets@.len() && (#[trigger] self.markets@[i]).symbol@ == m
    }

    /// A registry of the standard markets.
    pub fn new() -> (r: OrderValidator)
        ensures
            r.markets@.len() == 5,
            has_params(r.markets@[0], "BTC-USD"@, "BTC"@, "USD"@, 2, 8, 1, 100_000_000, 100_000, 10_000_000_000),
            has_params(r.markets@[1], "ETH-USD"@, "ETH"@, "USD"@, 2, 6, 1, 10_000_000, 10_000, 1_000_000_000),
            has_params(r.markets@[2], "BTC-USDT"@, "BTC"@, "USDT"@, 2, 8, 1, 100_000_000, 100_000, 10_000_000_000),
            has_params(r.markets@[3], "ETH-USDT"@, "ETH"@, "USDT"@, 2, 6, 1, 10_000_000, 10_000, 1_000_000_000),
            has_params(r.markets@[4], "SOL-USD"@, "SOL"@, "USD"@, 4, 4, 1, 10_000_000, 1_000, 100_000_000),
    {
        OrderValidator { markets: default_markets() }
    }

    /// A registry of the given markets.
    pub fn with_markets(markets: Vec<MarketConfig>) -> (r: OrderValidator)
        ensures
            r.markets@ == markets@,
    {
        OrderValidator { markets }
    }

    fn find(&self, market: &String) -> (r: Option<usize>)
        ensures
            match r {
                Some(i) => self.market_at(market@, i as int),
                None => !self.knows(market@),
            },
    {
        let mut i: usize = 0;
        while i < self.markets.len()
            invariant
                i <= self.markets.len(),
                forall|j: int| 0 <= j < i ==> (#[trigger] self.markets@[j]).symbol@ != market@,
            decreases self.markets.len() - i,
        {
            if self.markets[i].symbol == *market {
                return Some(i);
            }
            i = i + 1;
        }
        None
    }

    /// Checks an order's price and quantity against its market's bounds.
    pub fn validate_order(&self, market: &String, price: u64, quantity: u64) -> (r: Result<(), EngineError>)
        ensures
            !self.knows(market@) ==> r == Err::<(), EngineError>(EngineError::UnknownMarket),
            forall|i: int| #[trigger] self.market_at(market@, i) ==> (r is Ok <==> order_fits(self.markets@[i], price, quantity))
                && (r is Err ==> r == Err::<(), EngineError>(EngineError::ValidationError)),
    {
        match self.find(market) {
            None => Err(EngineError::UnknownMarket),
            Some(i) => {
                if fits_market(&self.markets[i], price, quantity) {
                    Ok(())
                } else {
                    Err(EngineError::ValidationError)
                }
            },
        }
    }

    /// The tickers of all markets, in registry order.
    pub fn get_supported_markets(&self) -> (r: Vec<String>)
        ensures
            r@.len() == self.markets@.len(),
            forall|i: int| 0 <= i < r@.len() ==> (#[trigger] r@[i])@ == self.markets@[i].symbol@,
    {
        let mut out: Vec<String> = Vec::new();
        let mut i: usize = 0;
        while i < self.markets.len()
            invariant
                i <= self.markets.len(),
                out@.len() == i,
                forall|j: int| 0 <= j < i ==> (#[trigger] out@[j])@ == self.markets@[j].symbol@,
            decreases self.markets.len() - i,
        {
            out.push(self.markets[i].symbol.clone());
            i = i + 1;
        }
        out
    }

    /// The parameters of `market`.
    pub fn get_market_config(&self, market: &String) -> (r: Option<&MarketConfig>)
        ensures
            !self.knows(market@) ==> r is None,
            forall|i: int| #[trigger] self.market_at(market@, i) ==> r == Some(&self.markets@[i]),
    {
        match self.find(market) {
            Some(i) => Some(&self.markets[i]),
            None => None,
        }
    }
}

fn market(base: &str, quote: &str, symbol: &str, price_precision: u32, quantity_precision: u32, min_price: u64,
    max_price: u64, min_order_size: u64, max_order_size: u64) -> (r: MarketConfig)
    ensures
        r.symbol@ == symbol@,
        r.base_asset@ == base@,
        r.quote_asset@ == quote@,
        r.price_precision == price_precision,
        r.quantity_precision == quantity_precision,
        r.min_price == min_price,
        r.max_price == max_price,
        r.min_order_size == min_order_size,
        r.max_order_size == max_order_size,
{
    MarketConfig {
        symbol: symbol.to_string(),
        base_asset: base.to_string(),
        quote_asset: quote.to_string(),
        price_precision,
        quantity_precision,
        min_price,
        max_price,
        min_order_size,
        max_order_size,
    }
}

/// `c` has these parameters.
pub open spec fn has_params(c: MarketConfig, symbol: Seq<char>, base: Seq<char>, quote: Seq<char>, price_precision: u32,
    quantity_precision: u32, min_price: u64, max_price: u64, min_order_size: u64, max_order_size: u64) -> bool {
    &&& c.symbol@ == symbol
    &&& c.base_asset@ == base
    &&& c.quote_asset@ == quote
    &&& c.price_precision == price_precision
    &&& c.quantity_precision == quantity_precision
    &&& c.min_price == min_price
    &&& c.max_price == max_price
    &&& c.min_order_size == min_order_size
    &&& c.max_order_size == max_order_size
}

/// The standard markets, bounds in ticks and steps of each market's precision.
pub fn default_markets() -> (r: Vec<MarketConfig>)
    ensures
        r@.len() == 5,
        has_params(r@[0], "BTC-USD"@, "BTC"@, "USD"@, 2, 8, 1, 100_000_000, 100_000, 10_000_000_000),
        has_params(r@[1], "ETH-USD"@, "ETH"@, "USD"@, 2, 6, 1, 10_000_000, 10_000, 1_000_000_000),
        has_params(r@[2], "BTC-USDT"@, "BTC"@, "USDT"@, 2, 8, 1, 100_000_000, 100_000, 10_000_000_000),
        has_params(r@[3], "ETH-USDT"@, "ETH"@, "USDT"@, 2, 6, 1, 10_000_000, 10_000, 1_000_000_000),
        has_params(r@[4], "SOL-USD"@, "SOL"@, "USD"@, 4, 4, 1, 10_000_000, 1_000, 100_000_000),
{
    let mut v: Vec<MarketConfig> = Vec::new();
    v.push(market("BTC", "USD", "BTC-USD", 2, 8, 1, 100_000_000, 100_000, 10_000_000_000));
    v.push(market("ETH", "USD", "ETH-USD", 2, 6, 1, 10_000_000, 10_000, 1_000_000_000));
    v.push(market("BTC", "USDT", "BTC-USDT", 2, 8, 1, 100_000_000, 100_000, 10_000_000_000));
    v.push(market("ETH", "USDT", "ETH-USDT", 2, 6, 1, 10_000_000, 10_000, 1_000_000_000));
    v.push(market("SOL", "USD", "SOL-USD", 4, 4, 1, 10_000_000, 1_000, 100_000_000));
    v
}

} // verus!
