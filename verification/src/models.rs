//! Value types of the arbitrage calculators.

use vstd::prelude::*;
use crate::numeric::floor_div;
use crate::numeric::is_floor_sqrt;
use crate::numeric::isqrt;
use crate::numeric::lemma_floor_sqrt_unique;
use crate::numeric::lemma_mean_in_range;

verus! {

/// The market a price was cleared in; it fixes the length of the interval
/// the price covers.
#[derive(Debug, Clone, Copy, PartialEq, Eq, Structural)]
pub enum MarketType {
    DayAhead,
    RealTime5Min,
    RealTime15Min,
}

impl MarketType {
    /// Number of priced intervals in one hour.
    pub open spec fn spec_intervals_per_hour(self) -> int {
        match self {
            MarketType::DayAhead => 1,
            MarketType::RealTime5Min => 12,
            MarketType::RealTime15Min => 4,
        }
    }

    /// Length of one priced interval, in minutes.
    pub open spec fn spec_interval_minutes(self) -> int {
        match self {
            MarketType::DayAhead => 60,
            MarketType::RealTime5Min => 5,
            MarketType::RealTime15Min => 15,
        }
    }

    /// Number of priced intervals in one hour.
    pub fn intervals_per_hour(self) -> (n: usize)
        ensures
            n == self.spec_intervals_per_hour(),
    {
        match self {
            MarketType::DayAhead => 1,
            MarketType::RealTime5Min => 12,
            MarketType::RealTime15Min => 4,
        }
    }

    /// Length of one priced interval, in minutes.
    pub fn interval_minutes(self) -> (m: i64)
        ensures
            m == self.spec_interval_minutes(),
            m * self.spec_intervals_per_hour() == 60,
    {
        match self {
            MarketType::DayAhead => 60,
            MarketType::RealTime5Min => 5,
            MarketType::RealTime15Min => 15,
        }
    }

    /// True for both real-time markets.
    pub open spec fn spec_is_real_time(self) -> bool {
        self != MarketType::DayAhead
    }

    /// True for both real-time markets.
    pub fn is_real_time(self) -> (b: bool)
        ensures
            b == self.spec_is_real_time(),
    {
        match self {
            MarketType::DayAhead => false,
            MarketType::RealTime5Min => true,
            MarketType::RealTime15Min => true,
        }
    }
}

/// Default round-trip efficiency of a new profile: 85 %.
pub const DEFAULT_ROUND_TRIP_PPM: u32 = 850_000;

/// Default minimum spread of a new profile: 5 $/MWh.
pub const DEFAULT_MIN_SPREAD: i32 = 5_000;

/// A battery profile.
#[derive(Debug, Clone, Copy, PartialEq, Eq, Structural)]
pub struct TbxConfig {
    /// Hours the battery can run at full power: 1, 2 or 4.
    pub duration_hours: u8,
    /// Rated power, kW.
    pub battery_power_kw: u32,
    /// Usable energy, kWh.
    pub battery_capacity_kwh: u64,
    /// Share of the charged energy that comes back out, parts per million.
    pub round_trip_efficiency_ppm: u32,
    /// Smallest spread worth cycling for, thousandths of a dollar per MWh.
    pub min_spread_threshold: i32,
}

impl TbxConfig {
    /// The profile with the default efficiency and threshold.
    pub open spec fn standard(duration_hours: u8, power_kw: u32) -> TbxConfig {
        TbxConfig {
            duration_hours,
            battery_power_kw: power_kw,
            battery_capacity_kwh: (power_kw * duration_hours) as u64,
            round_trip_efficiency_ppm: DEFAULT_ROUND_TRIP_PPM,
            min_spread_threshold: DEFAULT_MIN_SPREAD,
        }
    }

    /// The duration is one of the three the metric knows and the capacity is
    /// what the rated power delivers over it.
    pub open spec fn well_formed(&self) -> bool {
        &&& self.duration_hours == 1 || self.duration_hours == 2 || self.duration_hours == 4
        &&& self.battery_capacity_kwh == self.battery_power_kw * self.duration_hours
    }

    pub fn new_tb1(power_kw: u32) -> (c: Self)
        ensures
            c == Self::standard(1, power_kw),
            c.well_formed(),
    {
        Self::with_duration(1, power_kw)
    }

    pub fn new_tb2(power_kw: u32) -> (c: Self)
        ensures
            c == Self::standard(2, power_kw),
            c.well_formed(),
    {
        Self::with_duration(2, power_kw)
    }

    pub fn new_tb4(power_kw: u32) -> (c: Self)
        ensures
            c == Self::standard(4, power_kw),
            c.well_formed(),
    {
        Self::with_duration(4, power_kw)
    }

    fn with_duration(duration_hours: u8, power_kw: u32) -> (c: Self)
        requires
            duration_hours == 1 || duration_hours == 2 || duration_hours == 4,
        ensures
            c == Self::standard(duration_hours, power_kw),
            c.well_formed(),
    {
        let power: u64 = power_kw as u64;
        let hours: u64 = duration_hours as u64;
        assert(power * hours <= 0xffff_ffff * 4) by (nonlinear_arith)
            requires
                power <= 0xffff_ffff,
                hours <= 4,
        ;
        TbxConfig {
            duration_hours,
            battery_power_kw: power_kw,
            battery_capacity_kwh: power * hours,
            round_trip_efficiency_ppm: DEFAULT_ROUND_TRIP_PPM,
            min_spread_threshold: DEFAULT_MIN_SPREAD,
        }
    }

    /// Efficiency of one leg, parts per million: the square root of the
    /// round-trip efficiency, rounded down.
    pub open spec fn spec_one_way_efficiency(&self) -> int {
        choose|e: int| #[trigger] is_floor_sqrt(self.round_trip_efficiency_ppm * 1_000_000, e)
    }

    /// Efficiency of one leg, parts per million: the square root of the
    /// round-trip efficiency, rounded down.
    pub fn one_way_efficiency(&self) -> (e: u32)
        ensures
            is_floor_sqrt(self.round_trip_efficiency_ppm * 1_000_000, e as int),
            e == self.spec_one_way_efficiency(),
            e <= 0x400_0000,
    {
        let rt: u64 = self.round_trip_efficiency_ppm as u64;
        let e: u32 = isqrt(rt * 1_000_000);
        proof {
            lemma_floor_sqrt_unique(
                self.round_trip_efficiency_ppm * 1_000_000,
                e as int,
                self.spec_one_way_efficiency(),
            );
            if e > 0x400_0000 {
                assert(e * e > 0xffff_ffff * 1_000_000) by (nonlinear_arith)
                    requires
                        e >= 0x400_0001,
                ;
            }
        }
        e
    }
}

/// One cleared price.
#[derive(Debug, Clone)]
pub struct PriceData {
    /// Start of the interval, minutes since 1970-01-01T00:00Z.
    pub timestamp: i32,
    pub settlement_point: String,
    /// Thousandths of a dollar per MWh.
    pub price: i32,
    pub market: MarketType,
}

/// One charge-discharge cycle.
#[derive(Debug, Clone, Copy, PartialEq, Eq, Structural)]
pub struct ArbitrageWindow {
    /// Minutes since 1970-01-01T00:00Z, as are the three other bounds.
    pub charge_start: i64,
    pub charge_end: i64,
    /// Mean price paid, thousandths of a dollar per MWh.
    pub charge_price: i32,
    pub discharge_start: i64,
    pub discharge_end: i64,
    /// Mean price received, thousandths of a dollar per MWh.
    pub discharge_price: i32,
    /// Energy moved through the cycle, kWh.
    pub energy_kwh: u64,
    /// Millionths of a dollar.
    pub revenue: i128,
}

/// What a cycle earns: energy times spread times round-trip efficiency, in
/// millionths of a dollar.
pub open spec fn cycle_revenue(
    energy_kwh: int,
    charge_price: int,
    discharge_price: int,
    round_trip_ppm: int,
) -> int {
    energy_kwh * (discharge_price - charge_price) * round_trip_ppm / 1_000_000
}

impl ArbitrageWindow {
    /// The revenue is the one the other fields give under `config`, and the
    /// energy does not exceed the battery's capacity.
    pub open spec fn consistent_with(&self, config: TbxConfig) -> bool {
        &&& self.energy_kwh <= config.battery_capacity_kwh
        &&& self.revenue == cycle_revenue(
            self.energy_kwh as int,
            self.charge_price as int,
            self.discharge_price as int,
            config.round_trip_efficiency_ppm as int,
        )
    }

    /// Discharge price less charge price.
    pub open spec fn spread(&self) -> int {
        self.discharge_price - self.charge_price
    }
}

/// Sum of the revenues of `windows`.
pub open spec fn total_revenue(windows: Seq<ArbitrageWindow>) -> int
    decreases windows.len(),
{
    if windows.len() == 0 {
        0
    } else {
        total_revenue(windows.drop_last()) + windows.last().revenue
    }
}

/// Sum of the energies of `windows`.
pub open spec fn total_energy(windows: Seq<ArbitrageWindow>) -> int
    decreases windows.len(),
{
    if windows.len() == 0 {
        0
    } else {
        total_energy(windows.drop_last()) + windows.last().energy_kwh
    }
}

/// Sum over `windows` of spread times energy.
pub open spec fn total_weighted_spread(windows: Seq<ArbitrageWindow>) -> int
    decreases windows.len(),
{
    if windows.len() == 0 {
        0
    } else {
        total_weighted_spread(windows.drop_last()) + windows.last().spread()
            * windows.last().energy_kwh
    }
}

/// Energy-weighted mean spread of `windows`; zero when they move no energy.
pub open spec fn average_spread(windows: Seq<ArbitrageWindow>) -> int {
    if total_energy(windows) > 0 {
        total_weighted_spread(windows) / total_energy(windows)
    } else {
        0
    }
}

/// Largest energy among `windows`; zero when there is none.
pub open spec fn peak_energy(windows: Seq<ArbitrageWindow>) -> int
    decreases windows.len(),
{
    if windows.len() == 0 {
        0
    } else {
        let rest = peak_energy(windows.drop_last());
        if windows.last().energy_kwh > rest {
            windows.last().energy_kwh as int
        } else {
            rest
        }
    }
}

/// Most windows that can be summed.
pub const MAX_WINDOWS: usize = 0x100_0000;

/// Largest energy of a window that can be summed, kWh.
pub const MAX_WINDOW_ENERGY: u64 = 0x100_0000_0000;

/// Largest size of the revenue of a window that can be summed.
pub const MAX_WINDOW_REVENUE: i128 = 0x10_0000_0000_0000_0000_0000_0000;

/// Energy and revenue of the window are within what sums can take.
pub open spec fn window_bounded(w: ArbitrageWindow) -> bool {
    w.energy_kwh <= MAX_WINDOW_ENERGY && -MAX_WINDOW_REVENUE <= w.revenue <= MAX_WINDOW_REVENUE
}

/// The windows are few enough and each small enough to be summed.
pub open spec fn windows_bounded(windows: Seq<ArbitrageWindow>) -> bool {
    windows.len() <= MAX_WINDOWS && forall|i: int|
        0 <= i < windows.len() ==> window_bounded(#[trigger] windows[i])
}

/// Sum of the revenues of `windows`.
pub fn sum_revenue(windows: &Vec<ArbitrageWindow>) -> (sum: i128)
    requires
        windows_bounded(windows@),
    ensures
        sum == total_revenue(windows@),
{
    let mut sum: i128 = 0;
    let mut i: usize = 0;
    while i < windows.len()
        invariant
            i <= windows.len(),
            windows_bounded(windows@),
            sum == total_revenue(windows@.take(i as int)),
            -(MAX_WINDOW_REVENUE * i) <= sum <= MAX_WINDOW_REVENUE * i,
        decreases windows.len() - i,
    {
        proof {
            assert(windows@.take(i + 1).drop_last() =~= windows@.take(i as int));
            assert(window_bounded(windows[i as int]));
            assert(MAX_WINDOW_REVENUE * (i + 1) == MAX_WINDOW_REVENUE * i + MAX_WINDOW_REVENUE)
                by (nonlinear_arith);
            assert(MAX_WINDOW_REVENUE * i <= 0x10_0000_0000_0000_0000_0000_0000 * 0x100_0000)
                by (nonlinear_arith)
                requires
                    i <= 0x100_0000,
                    MAX_WINDOW_REVENUE == 0x10_0000_0000_0000_0000_0000_0000,
            ;
        }
        sum = sum + windows[i].revenue;
        i = i + 1;
    }
    assert(windows@.take(windows.len() as int) =~= windows@);
    sum
}

/// Energy-weighted mean spread of `windows`.
pub fn average_spread_of(windows: &Vec<ArbitrageWindow>) -> (avg: i64)
    requires
        windows_bounded(windows@),
    ensures
        avg == average_spread(windows@),
{
    let mut weighted: i128 = 0;
    let mut energy: i128 = 0;
    let mut i: usize = 0;
    while i < windows.len()
        invariant
            i <= windows.len(),
            windows_bounded(windows@),
            weighted == total_weighted_spread(windows@.take(i as int)),
            energy == total_energy(windows@.take(i as int)),
            0 <= energy <= MAX_WINDOW_ENERGY * i,
            -0xffff_ffff * energy <= weighted <= 0xffff_ffff * energy,
        decreases windows.len() - i,
    {
        let w: ArbitrageWindow = windows[i];
        proof {
            assert(windows@.take(i + 1).drop_last() =~= windows@.take(i as int));
            assert(window_bounded(windows[i as int]));
            assert(-0xffff_ffff * w.energy_kwh <= w.spread() * w.energy_kwh <= 0xffff_ffff
                * w.energy_kwh) by (nonlinear_arith)
                requires
                    -0xffff_ffff <= w.spread() <= 0xffff_ffff,
                    0 <= w.energy_kwh,
            ;
            assert(0 <= w.energy_kwh * 0xffff_ffff <= 0x100_0000_0000 * 0xffff_ffff)
                by (nonlinear_arith)
                requires
                    0 <= w.energy_kwh <= 0x100_0000_0000,
            ;
            assert(MAX_WINDOW_ENERGY * (i + 1) == MAX_WINDOW_ENERGY * i + MAX_WINDOW_ENERGY)
                by (nonlinear_arith);
            assert(MAX_WINDOW_ENERGY * i <= 0x100_0000_0000 * 0x100_0000) by (nonlinear_arith)
                requires
                    i <= 0x100_0000,
                    MAX_WINDOW_ENERGY == 0x100_0000_0000,
            ;
            assert(0xffff_ffff * energy <= 0xffff_ffff * (0x100_0000_0000 * 0x100_0000))
                by (nonlinear_arith)
                requires
                    energy <= 0x100_0000_0000 * 0x100_0000,
            ;
        }
        let spread: i128 = w.discharge_price as i128 - w.charge_price as i128;
        weighted = weighted + spread * w.energy_kwh as i128;
        energy = energy + w.energy_kwh as i128;
        i = i + 1;
    }
    assert(windows@.take(windows.len() as int) =~= windows@);
    if energy > 0 {
        proof {
            lemma_mean_in_range(weighted as int, energy as int, -0xffff_ffff, 0xffff_ffff);
        }
        floor_div(weighted, energy) as i64
    } else {
        0
    }
}

/// The strategy a result ranks first.
#[derive(Debug, Clone, Copy, PartialEq, Eq, Structural)]
pub enum Strategy {
    Blended,
    RealTime,
    DayAhead,
}

/// One resource's idealized arbitrage on one day.
#[derive(Debug, Clone)]
pub struct TbxResult {
    pub resource_name: String,
    pub settlement_point: String,
    /// Days since 1970-01-01.
    pub date: i32,
    pub config: TbxConfig,
    /// Revenue by market, millionths of a dollar.
    pub revenue_da: i128,
    pub revenue_rt: i128,
    pub revenue_blended: i128,
    pub da_windows: Vec<ArbitrageWindow>,
    pub rt_windows: Vec<ArbitrageWindow>,
    pub blended_windows: Vec<ArbitrageWindow>,
    /// Energy-weighted mean spreads, thousandths of a dollar per MWh.
    pub avg_spread_da: i64,
    pub avg_spread_rt: i64,
    pub avg_spread_blended: i64,
    /// Largest cycle over capacity, parts per million.
    pub utilization_factor: u64,
    /// Parts per million of a full cycle.
    pub cycles_per_day: u64,
}

impl TbxResult {
    /// The revenue of the best of the three strategies.
    pub open spec fn spec_best_revenue(&self) -> int {
        let da_rt = if self.revenue_da >= self.revenue_rt {
            self.revenue_da
        } else {
            self.revenue_rt
        };
        if da_rt >= self.revenue_blended {
            da_rt as int
        } else {
            self.revenue_blended as int
        }
    }

    /// Blended wins ties, then real time.
    pub open spec fn spec_best_strategy(&self) -> Strategy {
        if self.revenue_blended >= self.revenue_da && self.revenue_blended >= self.revenue_rt {
            Strategy::Blended
        } else if self.revenue_rt >= self.revenue_da {
            Strategy::RealTime
        } else {
            Strategy::DayAhead
        }
    }

    /// An empty result: no window, every figure zero.
    pub fn new(resource_name: String, settlement_point: String, date: i32, config: TbxConfig) -> (r:
        Self)
        ensures
            r.resource_name == resource_name,
            r.settlement_point == settlement_point,
            r.date == date,
            r.config == config,
            r.revenue_da == 0 && r.revenue_rt == 0 && r.revenue_blended == 0,
            r.da_windows@.len() == 0 && r.rt_windows@.len() == 0 && r.blended_windows@.len() == 0,
            r.avg_spread_da == 0 && r.avg_spread_rt == 0 && r.avg_spread_blended == 0,
            r.utilization_factor == 0 && r.cycles_per_day == 0,
    {
        TbxResult {
            resource_name,
            settlement_point,
            date,
            config,
            revenue_da: 0,
            revenue_rt: 0,
            revenue_blended: 0,
            da_windows: Vec::new(),
            rt_windows: Vec::new(),
            blended_windows: Vec::new(),
            avg_spread_da: 0,
            avg_spread_rt: 0,
            avg_spread_blended: 0,
            utilization_factor: 0,
            cycles_per_day: 0,
        }
    }

    /// Enters the windows of the blended dispatch with their revenue and
    /// mean spread; the figures of the two markets stay as they are.
    pub fn set_blended(&mut self, windows: Vec<ArbitrageWindow>)
        requires
            windows_bounded(windows@),
        ensures
            final(self).blended_windows@ == windows@,
            final(self).revenue_blended == total_revenue(windows@),
            final(self).avg_spread_blended == average_spread(windows@),
            final(self).resource_name == old(self).resource_name,
            final(self).settlement_point == old(self).settlement_point,
            final(self).date == old(self).date,
            final(self).config == old(self).config,
            final(self).revenue_da == old(self).revenue_da,
            final(self).revenue_rt == old(self).revenue_rt,
            final(self).da_windows == old(self).da_windows,
            final(self).rt_windows == old(self).rt_windows,
            final(self).avg_spread_da == old(self).avg_spread_da,
            final(self).avg_spread_rt == old(self).avg_spread_rt,
            final(self).utilization_factor == old(self).utilization_factor,
            final(self).cycles_per_day == old(self).cycles_per_day,
    {
        self.revenue_blended = sum_revenue(&windows);
        self.avg_spread_blended = average_spread_of(&windows);
        self.blended_windows = windows;
    }

    pub fn best_revenue(&self) -> (r: i128)
        ensures
            r == self.spec_best_revenue(),
            r >= self.revenue_da && r >= self.revenue_rt && r >= self.revenue_blended,
    {
        let da_rt: i128 = if self.revenue_da >= self.revenue_rt {
            self.revenue_da
        } else {
            self.revenue_rt
        };
        if da_rt >= self.revenue_blended {
            da_rt
        } else {
            self.revenue_blended
        }
    }

    /// Which strategy earned most.
    pub fn best_strategy_kind(&self) -> (s: Strategy)
        ensures
            s == self.spec_best_strategy(),
    {
        if self.revenue_blended >= self.revenue_da && self.revenue_blended >= self.revenue_rt {
            Strategy::Blended
        } else if self.revenue_rt >= self.revenue_da {
            Strategy::RealTime
        } else {
            Strategy::DayAhead
        }
    }

    /// The name of the strategy that earned most.
    pub fn best_strategy(&self) -> (s: &'static str)
        ensures
            self.spec_best_strategy() == Strategy::Blended ==> s@ == "Blended"@,
            self.spec_best_strategy() == Strategy::RealTime ==> s@ == "RealTime"@,
            self.spec_best_strategy() == Strategy::DayAhead ==> s@ == "DayAhead"@,
    {
        match self.best_strategy_kind() {
            Strategy::Blended => "Blended",
            Strategy::RealTime => "RealTime",
            Strategy::DayAhead => "DayAhead",
        }
    }
}

} // verus!
