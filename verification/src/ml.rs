//! MTU prediction from connection statistics, in whole numbers: times in
//! microseconds, rates in bits per second, loss in parts per million.

use vstd::prelude::*;
use crate::error::Error;
use crate::fragmentation::{Fragmenter, fragmenter_wf, updated};

verus! {

/// Smallest MTU that may be configured.
pub const MIN_MTU: usize = 576;

/// Largest MTU that may be configured.
pub const MAX_MTU: usize = 9000;

/// Kind of network a connection runs over.
#[derive(Debug, Clone, Copy, PartialEq, Eq, Structural)]
pub enum NetworkType {
    Unknown,
    Ethernet,
    Wifi,
    Cellular,
    Satellite,
}

/// What the predictor knows of a connection.
#[derive(Debug, Clone, Copy, PartialEq, Eq, Structural)]
pub struct MtuFeatures {
    /// Average round-trip time in microseconds.
    pub avg_rtt_us: u64,
    /// Average throughput in bits per second.
    pub avg_throughput_bps: u64,
    /// Packet loss in parts per million.
    pub packet_loss_ppm: u32,
    /// Advisory congestion window.
    pub congestion_window: usize,
    /// Average packet size in octets.
    pub avg_packet_size: usize,
    /// Standard deviation of the packet size in octets.
    pub packet_size_stddev: u64,
    /// Kind of network.
    pub network_type: NetworkType,
    /// Seconds since midnight.
    pub time_of_day_s: u32,
}

impl Default for MtuFeatures {
    /// A connection of 50 ms round trip, 1 Mbit/s, no loss, packets of 1200
    /// octets, at noon.
    fn default() -> (r: Self)
        ensures
            r == (MtuFeatures {
                avg_rtt_us: 50000,
                avg_throughput_bps: 1000000,
                packet_loss_ppm: 0,
                congestion_window: 10,
                avg_packet_size: 1200,
                packet_size_stddev: 200,
                network_type: NetworkType::Unknown,
                time_of_day_s: 43200,
            }),
    {
        MtuFeatures {
            avg_rtt_us: 50000,
            avg_throughput_bps: 1000000,
            packet_loss_ppm: 0,
            congestion_window: 10,
            avg_packet_size: 1200,
            packet_size_stddev: 200,
            network_type: NetworkType::Unknown,
            time_of_day_s: 43200,
        }
    }
}

/// `x` times `num / den`, rounded down.
pub open spec fn scaled(x: int, num: int, den: int) -> int {
    x * num / den
}

/// After the latency and loss rule: nine tenths for a round trip above
/// 100 ms or a loss above 1 %.
pub open spec fn after_latency(mtu: int, f: MtuFeatures) -> int {
    if f.avg_rtt_us > 100000 || f.packet_loss_ppm > 10000 {
        scaled(mtu, 9, 10)
    } else {
        mtu
    }
}

/// After the second latency and loss rule: nine tenths again for a round
/// trip above 200 ms or a loss above 5 %.
pub open spec fn after_high_latency(mtu: int, f: MtuFeatures) -> int {
    if f.avg_rtt_us > 200000 || f.packet_loss_ppm > 50000 {
        scaled(mtu, 9, 10)
    } else {
        mtu
    }
}

/// After the throughput rule: eleven tenths above 5 Mbit/s with a loss below
/// 0.5 %.
pub open spec fn after_throughput(mtu: int, f: MtuFeatures) -> int {
    if f.avg_throughput_bps > 5000000 && f.packet_loss_ppm < 5000 {
        scaled(mtu, 11, 10)
    } else {
        mtu
    }
}

/// After the packet size rule: for packets larger than the MTU, 5 % more but
/// at most the packet size plus 100; for packets smaller than half the MTU,
/// 5 % less.
pub open spec fn after_packet_size(mtu: int, f: MtuFeatures) -> int {
    if f.avg_packet_size > mtu {
        if scaled(mtu, 105, 100) <= f.avg_packet_size + 100 {
            scaled(mtu, 105, 100)
        } else {
            f.avg_packet_size + 100
        }
    } else if f.avg_packet_size < mtu / 2 {
        scaled(mtu, 95, 100)
    } else {
        mtu
    }
}

/// After the network rule: 5 % less on wifi, 15 % less on cellular.
pub open spec fn after_network(mtu: int, f: MtuFeatures) -> int {
    match f.network_type {
        NetworkType::Wifi => scaled(mtu, 95, 100),
        NetworkType::Cellular => scaled(mtu, 85, 100),
        _ => mtu,
    }
}

/// `x` raised to `lo` where below it, then lowered to `hi` where above it.
pub open spec fn clamped(x: int, lo: int, hi: int) -> int {
    let raised = if x >= lo {
        x
    } else {
        lo
    };
    if raised <= hi {
        raised
    } else {
        hi
    }
}

/// `x` rounded to the nearest multiple of 100, halves up.
pub open spec fn round_100(x: int) -> int {
    (x + 50) / 100 * 100
}

/// The MTU that the rules recommend.
pub open spec fn rule_based_mtu(base: usize, min_mtu: usize, max_mtu: usize, f: MtuFeatures) -> int {
    round_100(
        clamped(
            after_network(
                after_packet_size(
                    after_throughput(after_high_latency(after_latency(base as int, f), f), f),
                    f,
                ),
                f,
            ),
            min_mtu as int,
            max_mtu as int,
        ),
    )
}

fn scale(x: u128, num: u128, den: u128) -> (r: u128)
    requires
        x <= 0xFFFF_FFFF_FFFF_FFFF_FFFF,
        num <= 1000,
        den > 0,
    ensures
        r == scaled(x as int, num as int, den as int),
        r <= x * num,
{
    assert(x * num <= 0xFFFF_FFFF_FFFF_FFFF_FFFF * 1000) by (nonlinear_arith)
        requires
            x <= 0xFFFF_FFFF_FFFF_FFFF_FFFF,
            num <= 1000,
    ;
    x * num / den
}

/// The rule-based model: it starts from a base MTU and keeps its
/// recommendations between a smallest and a largest MTU.
#[derive(Debug)]
pub struct SimpleRuleBasedModel {
    base_mtu: usize,
    min_mtu: usize,
    max_mtu: usize,
    prediction_history: Vec<usize>,
}

impl SimpleRuleBasedModel {
    /// The base MTU.
    pub closed spec fn base(&self) -> usize {
        self.base_mtu
    }

    /// The smallest MTU recommended.
    pub closed spec fn lower(&self) -> usize {
        self.min_mtu
    }

    /// The largest MTU recommended.
    pub closed spec fn upper(&self) -> usize {
        self.max_mtu
    }

    /// The last observed optimal MTUs, oldest first, ten at most.
    pub closed spec fn history(&self) -> Seq<usize> {
        self.prediction_history@
    }

    /// A model with the given base and bounds and no history.
    pub fn new(base_mtu: usize, min_mtu: usize, max_mtu: usize) -> (r: Self)
        ensures
            r.base() == base_mtu,
            r.lower() == min_mtu,
            r.upper() == max_mtu,
            r.history().len() == 0,
    {
        SimpleRuleBasedModel { base_mtu, min_mtu, max_mtu, prediction_history: Vec::new() }
    }

    /// The name of the model.
    pub fn model_type(&self) -> (r: &'static str)
        ensures
            r@ == "SimpleRuleBased"@,
    {
        "SimpleRuleBased"
    }

    /// The MTU that the rules recommend for a connection with the given
    /// features, kept within `usize`.
    pub fn predict(&self, features: &MtuFeatures) -> (r: usize)
        ensures
            r == if rule_based_mtu(self.base(), self.lower(), self.upper(), *features) <= usize::MAX {
                rule_based_mtu(self.base(), self.lower(), self.upper(), *features)
            } else {
                usize::MAX as int
            },
    {
        let f = *features;
        let mut mtu: u128 = self.base_mtu as u128;
        if f.avg_rtt_us > 100000 || f.packet_loss_ppm > 10000 {
            mtu = scale(mtu, 9, 10);
        }
        if f.avg_rtt_us > 200000 || f.packet_loss_ppm > 50000 {
            mtu = scale(mtu, 9, 10);
        }
        if f.avg_throughput_bps > 5000000 && f.packet_loss_ppm < 5000 {
            mtu = scale(mtu, 11, 10);
        }
        let size: u128 = f.avg_packet_size as u128;
        if size > mtu {
            let grown = scale(mtu, 105, 100);
            mtu = if grown <= size + 100 {
                grown
            } else {
                size + 100
            };
        } else if size < mtu / 2 {
            mtu = scale(mtu, 95, 100);
        }
        match f.network_type {
            NetworkType::Wifi => {
                mtu = scale(mtu, 95, 100);
            },
            NetworkType::Cellular => {
                mtu = scale(mtu, 85, 100);
            },
            _ => {},
        }
        if mtu < self.min_mtu as u128 {
            mtu = self.min_mtu as u128;
        }
        if mtu > self.max_mtu as u128 {
            mtu = self.max_mtu as u128;
        }
        let rounded: u128 = (mtu + 50) / 100 * 100;
        if rounded > usize::MAX as u128 {
            usize::MAX
        } else {
            rounded as usize
        }
    }

    /// Records an observed optimal MTU; the last ten are kept.
    pub fn update(&mut self, actual_optimal_mtu: usize)
        ensures
            final(self).base() == old(self).base(),
            final(self).lower() == old(self).lower(),
            final(self).upper() == old(self).upper(),
            final(self).history() == if old(self).history().len() + 1 > 10 {
                old(self).history().push(actual_optimal_mtu).skip(1)
            } else {
                old(self).history().push(actual_optimal_mtu)
            },
    {
        self.prediction_history.push(actual_optimal_mtu);
        if self.prediction_history.len() > 10 {
            let _ = self.prediction_history.remove(0);
        }
        assert(self.prediction_history@ =~= if old(self).history().len() + 1 > 10 {
            old(self).history().push(actual_optimal_mtu).skip(1)
        } else {
            old(self).history().push(actual_optimal_mtu)
        });
    }
}

/// Whether an MTU may be configured.
pub open spec fn mtu_in_range(mtu: int) -> bool {
    MIN_MTU <= mtu <= MAX_MTU
}

/// What a model of the MTU offers: a prediction from the features of a
/// connection, a way to learn from an observed optimum, and its name. An
/// alternate model is substituted by implementing this.
pub trait MtuPredictionModel {
    /// Predicts the MTU for a connection with the given features.
    fn predict(&self, features: &MtuFeatures) -> (r: usize);

    /// Takes note of the MTU that proved optimal under the given features.
    fn update(&mut self, features: &MtuFeatures, observed_optimal: usize);

    /// The name of the model.
    fn model_type(&self) -> (r: &'static str);
}

impl MtuPredictionModel for SimpleRuleBasedModel {
    fn predict(&self, features: &MtuFeatures) -> (r: usize) {
        SimpleRuleBasedModel::predict(self, features)
    }

    fn update(&mut self, features: &MtuFeatures, observed_optimal: usize) {
        SimpleRuleBasedModel::update(self, observed_optimal)
    }

    fn model_type(&self) -> (r: &'static str) {
        SimpleRuleBasedModel::model_type(self)
    }
}

/// The recommendation, given the override and what the model predicted: the
/// override where there is one, else the prediction.
pub fn recommended(override_value: Option<usize>, predicted: usize) -> (r: usize)
    ensures
        r == match override_value {
            Some(mtu) => mtu,
            None => predicted,
        },
{
    match override_value {
        Some(mtu) => mtu,
        None => predicted,
    }
}

/// The predictor: a model, unless an operator fixed the MTU.
#[derive(Debug)]
pub struct MTUPredictor<M: MtuPredictionModel> {
    pub model: M,
    pub override_value: Option<usize>,
}

impl<M: MtuPredictionModel> MTUPredictor<M> {
    /// A predictor over `model` with no override.
    pub fn new(model: M) -> (r: Self)
        ensures
            r.model == model,
            r.override_value is None,
    {
        MTUPredictor { model, override_value: None }
    }

    /// Fixes the MTU, or lifts the override with `None`. `InvalidArgument`,
    /// with nothing changed, for a value outside 576 to 9000.
    pub fn set_override(&mut self, mtu_value: Option<usize>) -> (r: Result<(), Error>)
        ensures
            final(self).model == old(self).model,
            (mtu_value is Some ==> mtu_in_range(mtu_value->0 as int)) ==> r is Ok && final(self).override_value
                == mtu_value,
            !(mtu_value is Some ==> mtu_in_range(mtu_value->0 as int)) ==> r == Err::<(), Error>(
                Error::InvalidArgument,
            ) && final(self).override_value == old(self).override_value,
    {
        match mtu_value {
            Some(mtu) => {
                if mtu < MIN_MTU || mtu > MAX_MTU {
                    return Err(Error::InvalidArgument);
                }
            },
            None => {},
        }
        self.override_value = mtu_value;
        Ok(())
    }

    /// The override, if there is one.
    pub fn get_override(&self) -> (r: Option<usize>)
        ensures
            r == self.override_value,
    {
        self.override_value
    }

    /// The recommended MTU: the override where there is one, else what the
    /// model predicts, of which nothing is known here; see [`recommended`].
    pub fn predict_mtu(&self, features: &MtuFeatures) -> (r: usize)
        ensures
            self.override_value is Some ==> r == self.override_value->0,
    {
        match self.override_value {
            Some(mtu) => mtu,
            None => recommended(self.override_value, self.model.predict(features)),
        }
    }

    /// Hands an observed optimum on to the model.
    pub fn learn(&mut self, features: &MtuFeatures, observed_optimal: usize)
        ensures
            final(self).override_value == old(self).override_value,
    {
        self.model.update(features, observed_optimal);
    }
}

/// Whether a recommendation is far enough from the current MTU to be taken:
/// more than 100 octets.
pub open spec fn worth_applying(current: usize, recommended: usize) -> bool {
    recommended > current + 100 || current > recommended + 100
}

/// Hands a recommendation to the fragmenter: its MTU is updated where the
/// recommendation differs from it by more than 100 octets.
pub fn apply_recommendation(fragmenter: &mut Fragmenter, recommended: usize, now: u64) -> (r: bool)
    requires
        fragmenter_wf(old(fragmenter)@),
    ensures
        fragmenter_wf(final(fragmenter)@),
        r == worth_applying(old(fragmenter)@.mtu, recommended),
        r ==> final(fragmenter)@ == updated(old(fragmenter)@, recommended as int, now),
        !r ==> final(fragmenter)@ == old(fragmenter)@,
{
    let current = fragmenter.mtu();
    let differs = if recommended >= current {
        recommended - current > 100
    } else {
        current - recommended > 100
    };
    if differs {
        fragmenter.update_mtu(recommended, now);
    }
    differs
}

} // verus!
