//! Precision policy for edge devices: which quantization mode to run given the
//! memory left, thermal pressure and the requested priority, and how a thermal
//! controller steps the mode up or down.

use crate::model::{quant_mode_name, QuantMode};
use vstd::prelude::*;

verus! {

/// What the automatic mode selection favours.
#[derive(Debug, Clone, Copy, PartialEq, Eq, Structural)]
pub enum AutoPriority {
    Balanced,
    Throughput,
    Parity,
}

/// ASCII lower-case of a byte.
pub open spec fn ascii_lower(b: u8) -> u8 {
    if 0x41 <= b <= 0x5A {
        (b + 32) as u8
    } else {
        b
    }
}

/// `s` equals `word` ignoring ASCII case (`word` is lower-case).
pub open spec fn matches_word(s: Seq<u8>, word: Seq<u8>) -> bool {
    s.len() == word.len() && forall|i: int| 0 <= i < s.len() ==> ascii_lower(#[trigger] s[i]) == word[i]
}

/// The priority that a setting names: throughput, speed or fast; parity,
/// quality or exact; anything else is balanced.
pub open spec fn priority_of_setting(s: Seq<u8>) -> AutoPriority {
    if matches_word(s, seq![116u8, 104, 114, 111, 117, 103, 104, 112, 117, 116]) || matches_word(
        s,
        seq![115u8, 112, 101, 101, 100],
    ) || matches_word(s, seq![102u8, 97, 115, 116]) {
        AutoPriority::Throughput
    } else if matches_word(s, seq![112u8, 97, 114, 105, 116, 121]) || matches_word(
        s,
        seq![113u8, 117, 97, 108, 105, 116, 121],
    ) || matches_word(s, seq![101u8, 120, 97, 99, 116]) {
        AutoPriority::Parity
    } else {
        AutoPriority::Balanced
    }
}

fn word_matches(s: &[u8], word: &[u8]) -> (r: bool)
    ensures
        r == matches_word(s@, word@),
{
    if s.len() != word.len() {
        return false;
    }
    let mut i: usize = 0;
    while i < s.len()
        invariant
            i <= s@.len(),
            s@.len() == word@.len(),
            forall|k: int| 0 <= k < i ==> ascii_lower(#[trigger] s@[k]) == word@[k],
        decreases s@.len() - i,
    {
        let b: u8 = s[i];
        let lower: u8 = if 0x41 <= b && b <= 0x5A { b + 32 } else { b };
        if lower != word[i] {
            return false;
        }
        i += 1;
    }
    true
}

impl AutoPriority {
    /// The priority named by a setting's bytes, ignoring ASCII case.
    pub fn from_setting(value: &[u8]) -> (r: AutoPriority)
        ensures
            r == priority_of_setting(value@),
    {
        let throughput: [u8; 10] = [116, 104, 114, 111, 117, 103, 104, 112, 117, 116];
        let speed: [u8; 5] = [115, 112, 101, 101, 100];
        let fast: [u8; 4] = [102, 97, 115, 116];
        let parity: [u8; 6] = [112, 97, 114, 105, 116, 121];
        let quality: [u8; 7] = [113, 117, 97, 108, 105, 116, 121];
        let exact: [u8; 5] = [101, 120, 97, 99, 116];
        assert(throughput@ =~= seq![116u8, 104, 114, 111, 117, 103, 104, 112, 117, 116]);
        assert(speed@ =~= seq![115u8, 112, 101, 101, 100]);
        assert(fast@ =~= seq![102u8, 97, 115, 116]);
        assert(parity@ =~= seq![112u8, 97, 114, 105, 116, 121]);
        assert(quality@ =~= seq![113u8, 117, 97, 108, 105, 116, 121]);
        assert(exact@ =~= seq![101u8, 120, 97, 99, 116]);
        if word_matches(value, &throughput) || word_matches(value, &speed) || word_matches(value, &fast) {
            AutoPriority::Throughput
        } else if word_matches(value, &parity) || word_matches(value, &quality) || word_matches(value, &exact) {
            AutoPriority::Parity
        } else {
            AutoPriority::Balanced
        }
    }
}

/// A mode choice with the reason behind it.
#[derive(Debug, Clone, PartialEq)]
pub struct EngineDecision {
    pub mode: QuantMode,
    pub priority: AutoPriority,
    pub reason: String,
    pub estimated_peak_mb: u64,
    pub recommended_cache: bool,
}

impl EngineDecision {
    /// Name of the engine that runs the chosen mode.
    pub fn engine_name(&self) -> (r: &'static str)
        ensures
            r@ == quant_mode_name(self.mode),
    {
        self.mode.as_str()
    }
}

/// Peak memory in MB that a mode needs.
pub open spec fn peak_mb(mode: QuantMode) -> u64 {
    match mode {
        QuantMode::Q8 => 2300,
        QuantMode::Q5 => 1600,
        QuantMode::Q4 => 1350,
        QuantMode::Q3 => 950,
        QuantMode::Q1_58 => 650,
    }
}

/// Peak memory in MB that a mode needs.
pub fn estimated_peak_mb(mode: QuantMode) -> (r: u64)
    ensures
        r == peak_mb(mode),
{
    match mode {
        QuantMode::Q8 => 2300,
        QuantMode::Q5 => 1600,
        QuantMode::Q4 => 1350,
        QuantMode::Q3 => 950,
        QuantMode::Q1_58 => 650,
    }
}

/// Precision rank: 0 for the least precise mode, 4 for the most.
pub open spec fn rank(mode: QuantMode) -> u8 {
    match mode {
        QuantMode::Q1_58 => 0,
        QuantMode::Q3 => 1,
        QuantMode::Q4 => 2,
        QuantMode::Q5 => 3,
        QuantMode::Q8 => 4,
    }
}

/// Precision rank of a mode.
pub fn quant_mode_rank(mode: QuantMode) -> (r: u8)
    ensures
        r == rank(mode),
{
    match mode {
        QuantMode::Q1_58 => 0,
        QuantMode::Q3 => 1,
        QuantMode::Q4 => 2,
        QuantMode::Q5 => 3,
        QuantMode::Q8 => 4,
    }
}

/// The mode one step less precise (the least precise stays).
pub fn downgrade_one(mode: QuantMode) -> (r: QuantMode)
    ensures
        rank(r) == if rank(mode) == 0 { 0 } else { rank(mode) - 1 },
{
    match mode {
        QuantMode::Q8 => QuantMode::Q5,
        QuantMode::Q5 => QuantMode::Q4,
        QuantMode::Q4 => QuantMode::Q3,
        QuantMode::Q3 | QuantMode::Q1_58 => QuantMode::Q1_58,
    }
}

/// The mode one step more precise (the most precise stays).
pub fn upgrade_one(mode: QuantMode) -> (r: QuantMode)
    ensures
        rank(r) == if rank(mode) == 4 { 4 } else { rank(mode) + 1 },
{
    match mode {
        QuantMode::Q1_58 => QuantMode::Q3,
        QuantMode::Q3 => QuantMode::Q4,
        QuantMode::Q4 => QuantMode::Q5,
        QuantMode::Q5 | QuantMode::Q8 => QuantMode::Q8,
    }
}

/// The most precise mode, no more precise than `candidate`, that the available
/// memory allows (unknown memory allows everything).
pub open spec fn memory_capped(candidate: QuantMode, available: Option<u64>, q8_min: u64, q5_min: u64) -> QuantMode {
    let a = match available {
        Some(v) => v,
        None => u64::MAX,
    };
    if rank(candidate) >= 4 && a >= q8_min {
        QuantMode::Q8
    } else if rank(candidate) >= 3 && a >= q5_min {
        QuantMode::Q5
    } else if rank(candidate) >= 2 && a >= 1000 {
        QuantMode::Q4
    } else if rank(candidate) >= 1 && a >= 750 {
        QuantMode::Q3
    } else {
        QuantMode::Q1_58
    }
}

/// Capping by memory never raises precision, leaves the candidate as it is
/// when the available memory is unknown, and never lowers precision when more
/// memory is available.
pub proof fn lemma_memory_cap_laws(candidate: QuantMode, a1: Option<u64>, a2: Option<u64>, q8_min: u64, q5_min: u64)
    ensures
        rank(memory_capped(candidate, a1, q8_min, q5_min)) <= rank(candidate),
        memory_capped(candidate, None, q8_min, q5_min) == candidate,
        reading_le(a1, a2) ==> rank(memory_capped(candidate, a1, q8_min, q5_min)) <= rank(
            memory_capped(candidate, a2, q8_min, q5_min),
        ),
{
}

/// The most precise mode up to `candidate` that the available memory allows.
pub fn highest_mode_with_memory(candidate: QuantMode, available: Option<u64>, q8_min_available_mb: u64, q5_min_available_mb: u64) -> (r: QuantMode)
    ensures
        r == memory_capped(candidate, available, q8_min_available_mb, q5_min_available_mb),
{
    let a: u64 = match available {
        Some(v) => v,
        None => u64::MAX,
    };
    let rank: u8 = quant_mode_rank(candidate);
    if rank >= 4 && a >= q8_min_available_mb {
        QuantMode::Q8
    } else if rank >= 3 && a >= q5_min_available_mb {
        QuantMode::Q5
    } else if rank >= 2 && a >= 1000 {
        QuantMode::Q4
    } else if rank >= 1 && a >= 750 {
        QuantMode::Q3
    } else {
        QuantMode::Q1_58
    }
}

/// Direction of a mode change.
#[derive(Debug, Clone, Copy, PartialEq, Eq, Structural)]
pub enum ThermalQuantizationAction {
    Hold,
    Downgrade,
    Upgrade,
}

/// Direction of the change from `previous_mode` to `selected_mode`.
pub fn thermal_action(previous_mode: QuantMode, selected_mode: QuantMode) -> (r: ThermalQuantizationAction)
    ensures
        r == if rank(selected_mode) < rank(previous_mode) {
            ThermalQuantizationAction::Downgrade
        } else if rank(selected_mode) > rank(previous_mode) {
            ThermalQuantizationAction::Upgrade
        } else {
            ThermalQuantizationAction::Hold
        },
{
    let previous_rank: u8 = quant_mode_rank(previous_mode);
    let selected_rank: u8 = quant_mode_rank(selected_mode);
    if selected_rank < previous_rank {
        ThermalQuantizationAction::Downgrade
    } else if selected_rank > previous_rank {
        ThermalQuantizationAction::Upgrade
    } else {
        ThermalQuantizationAction::Hold
    }
}

/// Where a temperature reading falls against the controller's thresholds.
#[derive(Debug, Clone, Copy, PartialEq, Eq, Structural)]
pub enum ThermalBand {
    /// At or above the critical threshold.
    Critical,
    /// At or above the hot threshold.
    Hot,
    /// At or below the cool threshold.
    Cool,
    /// Between the cool and hot thresholds.
    Within,
    /// No reading.
    Unknown,
}

/// Mode the thermal controller selects.
pub open spec fn thermal_mode(band: ThermalBand, previous: QuantMode, available: Option<u64>, q8_min: u64, q5_min: u64) -> QuantMode {
    match band {
        ThermalBand::Critical => QuantMode::Q4,
        ThermalBand::Hot => match previous {
            QuantMode::Q8 => QuantMode::Q5,
            QuantMode::Q5 => QuantMode::Q4,
            QuantMode::Q4 => QuantMode::Q3,
            _ => QuantMode::Q1_58,
        },
        ThermalBand::Cool => memory_capped(
            match previous {
                QuantMode::Q1_58 => QuantMode::Q3,
                QuantMode::Q3 => QuantMode::Q4,
                QuantMode::Q4 => QuantMode::Q5,
                _ => QuantMode::Q8,
            },
            available,
            q8_min,
            q5_min,
        ),
        ThermalBand::Within => previous,
        ThermalBand::Unknown => memory_capped(previous, available, q8_min, q5_min),
    }
}

/// Thermal controller step: force q4 when critical, step down when hot, step up
/// as far as memory allows when cool, hold inside the band, and cap by memory
/// when there is no reading.
pub fn thermal_step(band: ThermalBand, previous: QuantMode, available: Option<u64>, q8_min_available_mb: u64, q5_min_available_mb: u64) -> (r: QuantMode)
    ensures
        r == thermal_mode(band, previous, available, q8_min_available_mb, q5_min_available_mb),
{
    match band {
        ThermalBand::Critical => QuantMode::Q4,
        ThermalBand::Hot => downgrade_one(previous),
        ThermalBand::Cool => highest_mode_with_memory(upgrade_one(previous), available, q8_min_available_mb, q5_min_available_mb),
        ThermalBand::Within => previous,
        ThermalBand::Unknown => highest_mode_with_memory(previous, available, q8_min_available_mb, q5_min_available_mb),
    }
}

/// Which rule chose the mode.
#[derive(Debug, Clone, Copy, PartialEq, Eq, Structural)]
pub enum SelectionReason {
    ThermalPressure,
    ConstrainedRam,
    Throughput,
    ParityModerateRam,
    ParityHeadroom,
    BalancedModerateRam,
    BalancedArmEdge,
    Balanced,
}

/// Mode and rule of the automatic selection.
pub open spec fn selection(available: Option<u64>, total: Option<u64>, thermal_pressure: bool, is_arm_edge: bool, priority: AutoPriority) -> (QuantMode, SelectionReason) {
    let a = match available {
        Some(v) => v,
        None => u64::MAX,
    };
    let t = match total {
        Some(v) => v,
        None => u64::MAX,
    };
    let constrained = a < 1800 || t <= 4096;
    let moderate = a < 2800 || t <= 6144;
    if thermal_pressure {
        (QuantMode::Q4, SelectionReason::ThermalPressure)
    } else if constrained {
        (QuantMode::Q4, SelectionReason::ConstrainedRam)
    } else {
        match priority {
            AutoPriority::Throughput => (QuantMode::Q4, SelectionReason::Throughput),
            AutoPriority::Parity => if moderate {
                (QuantMode::Q5, SelectionReason::ParityModerateRam)
            } else {
                (QuantMode::Q8, SelectionReason::ParityHeadroom)
            },
            AutoPriority::Balanced => if moderate {
                (QuantMode::Q4, SelectionReason::BalancedModerateRam)
            } else if is_arm_edge {
                (QuantMode::Q5, SelectionReason::BalancedArmEdge)
            } else {
                (QuantMode::Q5, SelectionReason::Balanced)
            },
        }
    }
}

/// A memory reading below `limit` MB (an unknown reading is unlimited).
pub open spec fn reading_below(m: Option<u64>, limit: int) -> bool {
    m matches Some(x) && x < limit
}

/// Memory is tight: under 1800 MB available or at most 4096 MB in total.
pub open spec fn ram_tight(available: Option<u64>, total: Option<u64>) -> bool {
    reading_below(available, 1800) || reading_below(total, 4097)
}

/// Memory is moderate: under 2800 MB available or at most 6144 MB in total.
pub open spec fn ram_moderate(available: Option<u64>, total: Option<u64>) -> bool {
    reading_below(available, 2800) || reading_below(total, 6145)
}

/// Reading `a` shows no more memory than reading `b` (unknown means unlimited).
pub open spec fn reading_le(a: Option<u64>, b: Option<u64>) -> bool {
    match (a, b) {
        (_, None) => true,
        (None, Some(_)) => false,
        (Some(x), Some(y)) => x <= y,
    }
}

/// The selection rules: heat or tight memory force q4; with parity priority
/// the mode is q5 when memory is moderate and q8 only when it is not; with
/// throughput priority q4; balanced priority gives q4 on moderate memory and
/// q5 otherwise.
pub proof fn lemma_selection_rules(available: Option<u64>, total: Option<u64>, thermal_pressure: bool, is_arm_edge: bool, priority: AutoPriority)
    ensures
        thermal_pressure ==> selection(available, total, thermal_pressure, is_arm_edge, priority) == (
            QuantMode::Q4,
            SelectionReason::ThermalPressure,
        ),
        !thermal_pressure && ram_tight(available, total) ==> selection(available, total, thermal_pressure, is_arm_edge, priority)
            == (QuantMode::Q4, SelectionReason::ConstrainedRam),
        !thermal_pressure && !ram_tight(available, total) && priority == AutoPriority::Parity ==> selection(
            available,
            total,
            thermal_pressure,
            is_arm_edge,
            priority,
        ) == if ram_moderate(available, total) {
            (QuantMode::Q5, SelectionReason::ParityModerateRam)
        } else {
            (QuantMode::Q8, SelectionReason::ParityHeadroom)
        },
        !thermal_pressure && !ram_tight(available, total) && priority == AutoPriority::Throughput ==> selection(
            available,
            total,
            thermal_pressure,
            is_arm_edge,
            priority,
        ) == (QuantMode::Q4, SelectionReason::Throughput),
        !thermal_pressure && !ram_tight(available, total) && priority == AutoPriority::Balanced ==> selection(
            available,
            total,
            thermal_pressure,
            is_arm_edge,
            priority,
        ).0 == if ram_moderate(available, total) {
            QuantMode::Q4
        } else {
            QuantMode::Q5
        },
        (selection(available, total, thermal_pressure, is_arm_edge, priority).0 == QuantMode::Q8) <==> (
        !thermal_pressure && priority == AutoPriority::Parity && !ram_moderate(available, total)),
{
}

/// More memory never lowers precision: with the same heat, platform and
/// priority, a selection on readings showing at least as much memory picks a
/// mode at least as precise.
pub proof fn lemma_selection_monotone_in_memory(a1: Option<u64>, t1: Option<u64>, a2: Option<u64>, t2: Option<u64>, thermal_pressure: bool, is_arm_edge: bool, priority: AutoPriority)
    requires
        reading_le(a1, a2),
        reading_le(t1, t2),
    ensures
        rank(selection(a1, t1, thermal_pressure, is_arm_edge, priority).0) <= rank(
            selection(a2, t2, thermal_pressure, is_arm_edge, priority).0,
        ),
{
}

/// Chooses the quantization mode: q4 under thermal pressure or tight memory;
/// otherwise by priority and memory headroom.
pub fn select_quant_mode(available_memory_mb: Option<u64>, total_memory_mb: Option<u64>, thermal_pressure: bool, is_arm_edge: bool, priority: AutoPriority) -> (r: (QuantMode, SelectionReason))
    ensures
        r == selection(available_memory_mb, total_memory_mb, thermal_pressure, is_arm_edge, priority),
{
    let a: u64 = match available_memory_mb {
        Some(v) => v,
        None => u64::MAX,
    };
    let t: u64 = match total_memory_mb {
        Some(v) => v,
        None => u64::MAX,
    };
    let constrained = a < 1800 || t <= 4096;
    let moderate = a < 2800 || t <= 6144;
    if thermal_pressure {
        (QuantMode::Q4, SelectionReason::ThermalPressure)
    } else if constrained {
        (QuantMode::Q4, SelectionReason::ConstrainedRam)
    } else {
        match priority {
            AutoPriority::Throughput => (QuantMode::Q4, SelectionReason::Throughput),
            AutoPriority::Parity => if moderate {
                (QuantMode::Q5, SelectionReason::ParityModerateRam)
            } else {
                (QuantMode::Q8, SelectionReason::ParityHeadroom)
            },
            AutoPriority::Balanced => if moderate {
                (QuantMode::Q4, SelectionReason::BalancedModerateRam)
            } else if is_arm_edge {
                (QuantMode::Q5, SelectionReason::BalancedArmEdge)
            } else {
                (QuantMode::Q5, SelectionReason::Balanced)
            },
        }
    }
}

/// Decimal digits of `n`.
pub open spec fn decimal_u64(n: nat) -> Seq<char>
    decreases n,
{
    if n < 10 {
        seq![crate::cascade::digit_char(n)]
    } else {
        decimal_u64(n / 10).push(crate::cascade::digit_char(n % 10))
    }
}

fn push_decimal_u64(s: &mut String, n: u64)
    ensures
        final(s)@ == old(s)@ + decimal_u64(n as nat),
    decreases n,
{
    if n >= 10 {
        push_decimal_u64(s, n / 10);
    }
    let d: usize = (n % 10) as usize;
    s.append(crate::cascade::digit_str(d));
    assert(final(s)@ =~= old(s)@ + decimal_u64(n as nat));
}

/// A memory amount in MB as text, or "unknown".
pub fn display_mb(value: Option<u64>) -> (r: String)
    ensures
        r@ == match value {
            Some(v) => decimal_u64(v as nat),
            None => seq!['u', 'n', 'k', 'n', 'o', 'w', 'n'],
        },
{
    match value {
        Some(v) => {
            let mut s = String::new();
            push_decimal_u64(&mut s, v);
            assert(s@ =~= decimal_u64(v as nat));
            s
        },
        None => {
            proof {
                reveal_strlit("unknown");
            }
            "unknown".to_owned()
        },
    }
}

/// The thermal controller steps precision down one mode under heat, forces q4
/// when critical, holds inside the band, and steps up one mode when cool as long
/// as memory allows the next mode.
pub proof fn lemma_thermal_hysteresis(previous: QuantMode, available: Option<u64>, q8_min: u64, q5_min: u64)
    requires
        q5_min >= 1000,
    ensures
        rank(thermal_mode(ThermalBand::Hot, previous, available, q8_min, q5_min)) == if rank(previous) == 0 {
            0
        } else {
            rank(previous) - 1
        },
        thermal_mode(ThermalBand::Critical, previous, available, q8_min, q5_min) == QuantMode::Q4,
        thermal_mode(ThermalBand::Within, previous, available, q8_min, q5_min) == previous,
        (match available {
            Some(a) => a >= q8_min && a >= q5_min,
            None => true,
        }) ==> rank(thermal_mode(ThermalBand::Cool, previous, available, q8_min, q5_min)) == if rank(previous) == 4 {
            4
        } else {
            rank(previous) + 1
        },
{
}

} // verus!
